//! Definitions of capability groups, which nodes join by what they can do:
//! `cap-group/{group}`.

use crate::capability::{CapFilter, CapView, Capability, FilterView};
use crate::capcodec::{
    cap_from, cap_into, cap_of, parts_of_cap, raw_cap_view, BorrowedCap, CapParts, RawCap,
};
use vstd::prelude::*;

verus! {

/// Who belongs to a capability group, and what the group provides and needs.
#[derive(Debug, Clone, PartialEq, Eq)]
pub struct CapabilityGroupDef {
    /// A node with a capability that meets this belongs to the group.
    pub filter: CapFilter,
    pub provides: Vec<Capability>,
    pub needs: Vec<CapFilter>,
}

/// The model of a [`CapabilityGroupDef`].
#[verifier::ext_equal]
pub struct GroupDefView {
    pub filter: FilterView,
    pub provides: Seq<CapView>,
    pub needs: Seq<FilterView>,
}

pub open spec fn cap_views(v: Seq<Capability>) -> Seq<CapView> {
    v.map_values(|c: Capability| c@)
}

pub open spec fn filter_views(v: Seq<CapFilter>) -> Seq<FilterView> {
    v.map_values(|f: CapFilter| f@)
}

impl View for CapabilityGroupDef {
    type V = GroupDefView;

    open spec fn view(&self) -> GroupDefView {
        GroupDefView {
            filter: self.filter@,
            provides: cap_views(self.provides@),
            needs: filter_views(self.needs@),
        }
    }
}

/// A filter as plain values.
pub type RawFilter = (String, String, Option<u64>);

/// The model of a [`RawFilter`].
pub type FilterParts = (Seq<char>, Seq<char>, Option<u64>);

/// A group definition as plain values.
pub type RawGroupDef = (RawFilter, Vec<RawCap>, Vec<RawFilter>);

/// A [`RawGroupDef`] whose texts lie in the bytes that it was read from.
pub type BorrowedGroupDef<'a> = (
    (&'a str, &'a str, Option<u64>),
    Vec<BorrowedCap<'a>>,
    Vec<(&'a str, &'a str, Option<u64>)>,
);

/// The model of a [`RawGroupDef`].
pub type GroupDefParts = (FilterParts, Seq<CapParts>, Seq<FilterParts>);

pub open spec fn raw_filter_view(f: RawFilter) -> FilterParts {
    (f.0@, f.1@, f.2)
}

pub open spec fn raw_group_def_view(d: RawGroupDef) -> GroupDefParts {
    (
        raw_filter_view(d.0),
        d.1@.map_values(|c: RawCap| raw_cap_view(c)),
        d.2@.map_values(|f: RawFilter| raw_filter_view(f)),
    )
}

/// The bytes that `bincode` writes for a group definition.
pub uninterp spec fn group_def_bytes(
    d: (
        (Seq<char>, Seq<char>, Option<u64>),
        Seq<(Seq<char>, Seq<char>, Seq<(Seq<char>, (u8, Seq<char>, i64, u64), (u32, u32, u32))>, Seq<Seq<char>>)>,
        Seq<(Seq<char>, Seq<char>, Option<u64>)>,
    ),
) -> Seq<u8>;

/// The group definition that `bincode` reads from `bytes`, `None` where it
/// finds none.
pub uninterp spec fn group_def_parts(bytes: Seq<u8>) -> Option<
    (
        (Seq<char>, Seq<char>, Option<u64>),
        Seq<(Seq<char>, Seq<char>, Seq<(Seq<char>, (u8, Seq<char>, i64, u64), (u32, u32, u32))>, Seq<Seq<char>>)>,
        Seq<(Seq<char>, Seq<char>, Option<u64>)>,
    ),
>;

/// `bincode::serde::encode_to_vec` of a group definition: the result is a
/// function of the definition, and reading it gives the definition back.
#[verifier::external_body]
fn encode_raw_group_def(d: &RawGroupDef) -> (r: Vec<u8>)
    ensures
        r@ == group_def_bytes(raw_group_def_view(*d)),
        group_def_parts(r@) == Some(raw_group_def_view(*d)),
{
    bincode::serde::encode_to_vec(d, bincode::config::standard()).unwrap_or_default()
}

/// `bincode::serde::decode_from_slice` of a group definition: the result is a
/// function of the bytes. Before it, `bincode::serde::borrow_decode_from_slice`
/// reads the same with borrowed texts: it fails where a length goes beyond the
/// bytes, for which an owned text would be allocated first.
#[verifier::external_body]
fn decode_raw_group_def(bytes: &Vec<u8>) -> (r: Option<RawGroupDef>)
    ensures
        r is Some <==> group_def_parts(bytes@) is Some,
        r matches Some(d) ==> group_def_parts(bytes@) == Some(raw_group_def_view(d)),
{
    let cfg = bincode::config::standard();
    bincode::serde::borrow_decode_from_slice::<BorrowedGroupDef, _>(bytes, cfg).ok()?;
    bincode::serde::decode_from_slice(bytes, cfg).ok().map(|(v, _)| v)
}

/// The filter that its parts stand for.
pub open spec fn filter_of(p: FilterParts) -> FilterView {
    FilterView { namespace: p.0, name: p.1, max_age_ms: p.2 }
}

/// The capabilities that their parts stand for, `None` if one stands for
/// none.
pub open spec fn caps_of(v: Seq<CapParts>) -> Option<Seq<CapView>>
    decreases v.len(),
{
    if v.len() == 0 {
        Some(Seq::empty())
    } else {
        match (caps_of(v.drop_last()), cap_of(v.last())) {
            (Some(front), Some(c)) => Some(front.push(c)),
            _ => None,
        }
    }
}

/// The definition in `bytes`, if there is one.
pub open spec fn group_def_in(bytes: Seq<u8>) -> Option<GroupDefView> {
    match group_def_parts(bytes) {
        Some(p) => match caps_of(p.1) {
            Some(provides) => Some(
                GroupDefView {
                    filter: filter_of(p.0),
                    provides,
                    needs: p.2.map_values(|f: FilterParts| filter_of(f)),
                },
            ),
            None => None,
        },
        None => None,
    }
}

proof fn lemma_caps_prefix(v: Seq<CapParts>, i: int)
    requires
        0 <= i <= v.len(),
        caps_of(v.take(i)) is None,
    ensures
        caps_of(v) is None,
    decreases v.len() - i,
{
    if i == v.len() {
        assert(v.take(i) =~= v);
    } else {
        assert(v.take(i + 1).drop_last() =~= v.take(i));
        lemma_caps_prefix(v, i + 1);
    }
}

proof fn lemma_caps_round_trip(v: Seq<CapView>)
    ensures
        caps_of(v.map_values(|c: CapView| parts_of_cap(c))) == Some(v),
    decreases v.len(),
{
    let p = v.map_values(|c: CapView| parts_of_cap(c));
    if v.len() > 0 {
        lemma_caps_round_trip(v.drop_last());
        assert(p.drop_last() =~= v.drop_last().map_values(|c: CapView| parts_of_cap(c)));
        crate::capcodec::law_cap_parts_round_trip(v.last());
        assert(v.drop_last().push(v.last()) =~= v);
    } else {
        assert(v =~= Seq::empty());
    }
}

fn copy_raw_filter(f: &RawFilter) -> (r: CapFilter)
    ensures
        r@ == filter_of(raw_filter_view(*f)),
{
    CapFilter { namespace: f.0.clone(), name: f.1.clone(), max_age_ms: f.2 }
}

impl CapabilityGroupDef {
    /// The bytes of the definition; they hold it.
    pub fn encode(&self) -> (r: Vec<u8>)
        ensures
            group_def_in(r@) == Some(self@),
    {
        let mut caps: Vec<RawCap> = Vec::new();
        let mut i: usize = 0;
        while i < self.provides.len()
            invariant
                i <= self.provides.len(),
                caps@.len() == i,
                forall|k: int| 0 <= k < i ==> raw_cap_view(#[trigger] caps@[k]) == parts_of_cap(self.provides@[k]@),
            decreases self.provides.len() - i,
        {
            caps.push(cap_into(&self.provides[i]));
            i += 1;
        }
        let mut reqs: Vec<RawFilter> = Vec::new();
        let mut j: usize = 0;
        while j < self.needs.len()
            invariant
                j <= self.needs.len(),
                reqs@.len() == j,
                forall|k: int|
                    0 <= k < j ==> filter_of(raw_filter_view(#[trigger] reqs@[k])) == self.needs@[k]@,
            decreases self.needs.len() - j,
        {
            let f = &self.needs[j];
            reqs.push((f.namespace.clone(), f.name.clone(), f.max_age_ms));
            j += 1;
        }
        let raw = (
            (self.filter.namespace.clone(), self.filter.name.clone(), self.filter.max_age_ms),
            caps,
            reqs,
        );
        proof {
            let p = raw_group_def_view(raw);
            lemma_caps_round_trip(cap_views(self.provides@));
            assert(p.1 =~= cap_views(self.provides@).map_values(|c: CapView| parts_of_cap(c)));
            assert(p.2.map_values(|f: FilterParts| filter_of(f)) =~= filter_views(self.needs@));
        }
        encode_raw_group_def(&raw)
    }

    /// The definition in `bytes`, if there is one.
    pub fn decode(bytes: &Vec<u8>) -> (r: Option<CapabilityGroupDef>)
        ensures
            r is Some <==> group_def_in(bytes@) is Some,
            r matches Some(d) ==> group_def_in(bytes@) == Some(d@),
    {
        let raw = match decode_raw_group_def(bytes) {
            Some(d) => d,
            None => {
                return None;
            },
        };
        let (filter, raw_caps, raw_reqs) = raw;
        let ghost w = raw_caps@.map_values(|c: RawCap| raw_cap_view(c));
        let mut caps = raw_caps;
        let ghost all = caps@;
        let mut provides: Vec<Capability> = Vec::new();
        let n: usize = caps.len();
        let mut i: usize = 0;
        assert(w.take(0) =~= Seq::empty());
        assert(cap_views(provides@) =~= Seq::empty());
        assert(all.skip(0) =~= all);
        while i < n
            invariant
                i <= n == all.len(),
                w == all.map_values(|c: RawCap| raw_cap_view(c)),
                caps@ == all.skip(i as int),
                group_def_parts(bytes@) is Some,
                (group_def_parts(bytes@)->0).1 == w,
                caps_of(w.take(i as int)) == Some(cap_views(provides@)),
            decreases n - i,
        {
            let ghost before = provides@;
            let c = caps.remove(0);
            proof {
                assert(c == all[i as int]);
                assert(caps@ =~= all.skip(i + 1));
                assert(w.take(i + 1).drop_last() =~= w.take(i as int));
                assert(w.take(i + 1).last() == raw_cap_view(c));
            }
            match cap_from(c) {
                None => {
                    proof {
                        lemma_caps_prefix(w, i + 1);
                    }
                    return None;
                },
                Some(cap) => {
                    let ghost cv = cap@;
                    provides.push(cap);
                    assert(cap_views(provides@) =~= cap_views(before).push(cv));
                },
            }
            i += 1;
        }
        assert(w.take(i as int) =~= w);
        let mut needs: Vec<CapFilter> = Vec::new();
        let mut j: usize = 0;
        while j < raw_reqs.len()
            invariant
                j <= raw_reqs.len(),
                needs@.len() == j,
                forall|k: int| 0 <= k < j ==> (#[trigger] needs@[k])@ == filter_of(raw_filter_view(raw_reqs@[k])),
            decreases raw_reqs.len() - j,
        {
            needs.push(copy_raw_filter(&raw_reqs[j]));
            j += 1;
        }
        proof {
            let p = raw_reqs@.map_values(|f: RawFilter| raw_filter_view(f));
            assert(filter_views(needs@) =~= p.map_values(|f: FilterParts| filter_of(f)));
        }
        Some(CapabilityGroupDef { filter: copy_raw_filter(&filter), provides, needs })
    }
}

/// A definition's capabilities are read one by one, and if one cannot be read none are.
pub proof fn law_all_capabilities_or_none(v: Seq<CapParts>)
    ensures
        caps_of(v) is Some <==> forall|i: int| 0 <= i < v.len() ==> cap_of(#[trigger] v[i]) is Some,
        caps_of(v) is Some ==> caps_of(v)->0.len() == v.len() && forall|i: int|
            0 <= i < v.len() ==> cap_of(v[i]) == Some(#[trigger] (caps_of(v)->0)[i]),
    decreases v.len(),
{
    if v.len() > 0 {
        let rest = v.drop_last();
        law_all_capabilities_or_none(rest);
        assert(v[v.len() - 1] == v.last());
        if caps_of(v) is Some {
            assert forall|i: int| 0 <= i < v.len() implies cap_of(#[trigger] v[i]) is Some by {
                if i < rest.len() {
                    assert(rest[i] == v[i]);
                }
            }
            assert forall|i: int| 0 <= i < v.len() implies cap_of(v[i]) == Some(#[trigger] (caps_of(v)->0)[i]) by {
                if i < rest.len() {
                    assert(rest[i] == v[i]);
                    assert((caps_of(v)->0)[i] == (caps_of(rest)->0)[i]);
                }
            }
        } else if forall|i: int| 0 <= i < v.len() ==> cap_of(#[trigger] v[i]) is Some {
            assert forall|i: int| 0 <= i < rest.len() implies cap_of(#[trigger] rest[i]) is Some by {
                assert(cap_of(v[i]) is Some);
            }
            assert(cap_of(v[v.len() - 1]) is Some);
        }
    }
}

} // verus!
