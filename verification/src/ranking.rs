//! Providers in the order of one of their attributes.

use crate::capability::{
    attr_views, CallerContext, CapFilter, CapValue, CapValueView, CapView, Capability,
};
use crate::kv::KvHandle;
use crate::node_id::{NodeId, NodeView};
use crate::resolve::{provider_reading, provider_views, read_provider};
use crate::scan::{lemma_pick_at, lemma_picked_all, lemma_skip, lists_readings, picked};
use crate::text::{
    lemma_lt_irreflexive, lemma_lt_transitive, same_text, text_before, text_lt,
};
use vstd::prelude::*;

verus! {

/// By which attribute providers are ordered, and in which direction.
#[derive(Debug, Clone, PartialEq, Eq)]
pub struct Ranking {
    pub attribute: String,
    pub descending: bool,
}

// ── Values ───────────────────────────────────────────────────────────────────

/// The place of a floating-point number in the order of the numbers: of two
/// numbers the larger one has the larger place.
pub open spec fn float_rank(bits: u64) -> int {
    if bits >= 0x8000_0000_0000_0000 {
        0xffff_ffff_ffff_ffff - bits
    } else {
        bits + 0x8000_0000_0000_0000
    }
}

/// Whether the bits stand for no number.
pub open spec fn is_nan(bits: u64) -> bool {
    0x7ff0_0000_0000_0000 < bits < 0x8000_0000_0000_0000 || bits > 0xfff0_0000_0000_0000
}

/// The place of a kind of value: values of different kinds are ordered by it.
pub open spec fn kind_rank(v: CapValueView) -> int {
    match v {
        CapValueView::Text(_) => 0,
        CapValueView::Integer(_) => 1,
        CapValueView::FloatBits(_) => 2,
        CapValueView::Bool(_) => 3,
        CapValueView::Version(_, _, _) => 4,
    }
}

/// The order of versions.
pub open spec fn version_lt(a: (u32, u32, u32), b: (u32, u32, u32)) -> bool {
    a.0 < b.0 || (a.0 == b.0 && (a.1 < b.1 || (a.1 == b.1 && a.2 < b.2)))
}

/// The order of values.
pub open spec fn value_lt(a: CapValueView, b: CapValueView) -> bool {
    match (a, b) {
        (CapValueView::Text(x), CapValueView::Text(y)) => text_lt(x, y),
        (CapValueView::Integer(x), CapValueView::Integer(y)) => x < y,
        (CapValueView::FloatBits(x), CapValueView::FloatBits(y)) => float_rank(x) < float_rank(y),
        (CapValueView::Bool(x), CapValueView::Bool(y)) => !x && y,
        (CapValueView::Version(p, q, r), CapValueView::Version(s, t, u)) => version_lt((p, q, r), (s, t, u)),
        _ => kind_rank(a) < kind_rank(b),
    }
}

fn rank_of_float(bits: u64) -> (r: u64)
    ensures
        r == float_rank(bits),
{
    if bits >= 0x8000_0000_0000_0000 {
        0xffff_ffff_ffff_ffff - bits
    } else {
        bits + 0x8000_0000_0000_0000
    }
}

fn rank_of_kind(v: &CapValue) -> (r: u8)
    ensures
        r == kind_rank(v@),
{
    match v {
        CapValue::Text(_) => 0,
        CapValue::Integer(_) => 1,
        CapValue::FloatBits(_) => 2,
        CapValue::Bool(_) => 3,
        CapValue::Version(_, _, _) => 4,
    }
}

/// Whether a value stands before another one.
pub fn value_before(a: &CapValue, b: &CapValue) -> (r: bool)
    ensures
        r == value_lt(a@, b@),
{
    match (a, b) {
        (CapValue::Text(x), CapValue::Text(y)) => text_before(x.as_str(), y.as_str()),
        (CapValue::Integer(x), CapValue::Integer(y)) => *x < *y,
        (CapValue::FloatBits(x), CapValue::FloatBits(y)) => rank_of_float(*x) < rank_of_float(*y),
        (CapValue::Bool(x), CapValue::Bool(y)) => !*x && *y,
        (CapValue::Version(p, q, r), CapValue::Version(s, t, u)) => *p < *s || (*p == *s && (*q < *t || (*q
            == *t && *r < *u))),
        _ => rank_of_kind(a) < rank_of_kind(b),
    }
}

proof fn lemma_value_lt(a: CapValueView, b: CapValueView, c: CapValueView)
    ensures
        !value_lt(a, a),
        value_lt(a, b) && value_lt(b, c) ==> value_lt(a, c),
{
    match a {
        CapValueView::Text(x) => {
            lemma_lt_irreflexive(x);
            match (b, c) {
                (CapValueView::Text(y), CapValueView::Text(z)) => {
                    if text_lt(x, y) && text_lt(y, z) {
                        lemma_lt_transitive(x, y, z);
                    }
                },
                _ => {},
            }
        },
        _ => {},
    }
}

// ── Providers ────────────────────────────────────────────────────────────────

/// The value of the first attribute with this name.
pub open spec fn attribute_of(v: Seq<(Seq<char>, CapValueView)>, name: Seq<char>) -> Option<CapValueView>
    decreases v.len(),
{
    if v.len() == 0 {
        None
    } else if v[0].0 == name {
        Some(v[0].1)
    } else {
        attribute_of(v.drop_first(), name)
    }
}

/// What a provider is ordered by: the value of the attribute, unless it stands
/// for no number.
pub open spec fn ranked_by(p: (NodeView, CapView), attribute: Seq<char>) -> Option<CapValueView> {
    match attribute_of(p.1.attributes, attribute) {
        Some(CapValueView::FloatBits(bits)) if is_nan(bits) => None,
        v => v,
    }
}

/// Whether `a` has to stand before `b`. Providers that cannot be compared stand
/// at the end in either direction.
pub open spec fn goes_before(k: Ranking, a: (NodeView, CapView), b: (NodeView, CapView)) -> bool {
    match (ranked_by(a, k.attribute@), ranked_by(b, k.attribute@)) {
        (Some(x), Some(y)) => if k.descending {
            value_lt(y, x)
        } else {
            value_lt(x, y)
        },
        (Some(_), None) => true,
        _ => false,
    }
}

/// Whether the providers are in order.
pub open spec fn in_rank_order(v: Seq<(NodeView, CapView)>, k: Ranking) -> bool {
    forall|i: int, j: int| 0 <= i < j < v.len() ==> !goes_before(k, #[trigger] v[j], #[trigger] v[i])
}

fn find_attribute(c: &Capability, name: &str) -> (r: Option<usize>)
    ensures
        match attribute_of(c@.attributes, name@) {
            Some(v) => r matches Some(i) && i < c.attributes@.len() && c.attributes@[i as int].1@ == v,
            None => r is None,
        },
{
    let ghost all = c@.attributes;
    let mut i: usize = 0;
    assert(all.skip(0) =~= all);
    while i < c.attributes.len()
        invariant
            i <= c.attributes.len(),
            all == attr_views(c.attributes@),
            attribute_of(all, name@) == attribute_of(all.skip(i as int), name@),
        decreases c.attributes.len() - i,
    {
        proof {
            assert(all.skip(i as int).drop_first() =~= all.skip(i + 1));
            assert(all.skip(i as int)[0] == (c.attributes@[i as int].0@, c.attributes@[i as int].1@));
        }
        if same_text(c.attributes[i].0.as_str(), name) {
            return Some(i);
        }
        i += 1;
    }
    None
}

/// The place of the attribute that a provider is ordered by.
fn find_ranked(p: &(NodeId, Capability), attribute: &str) -> (r: Option<usize>)
    ensures
        match ranked_by((p.0@, p.1@), attribute@) {
            Some(v) => r matches Some(i) && i < p.1.attributes@.len() && p.1.attributes@[i as int].1@ == v,
            None => r is None,
        },
{
    match find_attribute(&p.1, attribute) {
        None => None,
        Some(i) => match &p.1.attributes[i].1 {
            CapValue::FloatBits(bits) => if (*bits > 0x7ff0_0000_0000_0000 && *bits < 0x8000_0000_0000_0000)
                || *bits > 0xfff0_0000_0000_0000 {
                None
            } else {
                Some(i)
            },
            _ => Some(i),
        },
    }
}

fn stands_before(k: &Ranking, a: &(NodeId, Capability), b: &(NodeId, Capability)) -> (r: bool)
    ensures
        r == goes_before(*k, (a.0@, a.1@), (b.0@, b.1@)),
{
    match (find_ranked(a, k.attribute.as_str()), find_ranked(b, k.attribute.as_str())) {
        (Some(i), Some(j)) => if k.descending {
            value_before(&b.1.attributes[j].1, &a.1.attributes[i].1)
        } else {
            value_before(&a.1.attributes[i].1, &b.1.attributes[j].1)
        },
        (Some(_), None) => true,
        _ => false,
    }
}

proof fn lemma_goes_before(
    k: Ranking,
    a: (NodeView, CapView),
    b: (NodeView, CapView),
    c: (NodeView, CapView),
)
    ensures
        !goes_before(k, a, a),
        goes_before(k, a, b) && goes_before(k, b, c) ==> goes_before(k, a, c),
{
    match (ranked_by(a, k.attribute@), ranked_by(b, k.attribute@), ranked_by(c, k.attribute@)) {
        (Some(x), Some(y), Some(z)) => {
            lemma_value_lt(x, y, z);
            lemma_value_lt(z, y, x);
        },
        (Some(x), _, _) => {
            lemma_value_lt(x, x, x);
        },
        _ => {},
    }
}

proof fn lemma_insert_ranked(v: Seq<(NodeView, CapView)>, k: Ranking, x: (NodeView, CapView), at: int)
    requires
        in_rank_order(v, k),
        0 <= at <= v.len(),
        forall|i: int| 0 <= i < at ==> !goes_before(k, x, #[trigger] v[i]),
        at < v.len() ==> goes_before(k, x, v[at]),
    ensures
        in_rank_order(v.insert(at, x), k),
{
    let t = v.insert(at, x);
    assert forall|i: int, j: int| 0 <= i < j < t.len() implies !goes_before(
        k,
        #[trigger] t[j],
        #[trigger] t[i],
    ) by {
        if j == at {
            assert(t[i] == v[i]);
        } else if i == at {
            assert(t[j] == v[j - 1]);
            lemma_goes_before(k, v[j - 1], x, v[at]);
            lemma_goes_before(k, v[at], x, v[at]);
        } else if i < at && at < j {
            assert(t[i] == v[i] && t[j] == v[j - 1]);
        } else if j < at {
            assert(t[i] == v[i] && t[j] == v[j]);
        } else {
            assert(t[i] == v[i - 1] && t[j] == v[j - 1]);
        }
    }
}

impl KvHandle {
    /// Like [`resolve_for_caller`](Self::resolve_for_caller), with the
    /// providers in the order of an attribute. Those without it, or with one
    /// that cannot be compared, come last.
    pub fn resolve_ranked(
        &self,
        filter: &CapFilter,
        caller: &CallerContext,
        ranking: &Ranking,
        now_ms: u64,
    ) -> (r: Vec<(NodeId, Capability)>)
        ensures
            lists_readings(
                provider_views(r@),
                self.table(),
                "cap/"@,
                provider_reading(filter@, caller.id(), now_ms),
            ),
            in_rank_order(provider_views(r@), *ranking),
    {
        let found = self.scan_prefix_with_ts("cap/");
        let ghost f = provider_reading(filter@, caller.id(), now_ms);
        let ghost mut src: Seq<int> = Seq::empty();
        let mut out: Vec<(NodeId, Capability)> = Vec::new();
        let mut i: usize = 0;
        assert(provider_views(out@) =~= Seq::empty());
        while i < found.len()
            invariant
                i <= found.len(),
                f == provider_reading(filter@, caller.id(), now_ms),
                picked(found@, i as int, src, provider_views(out@), f),
                in_rank_order(provider_views(out@), *ranking),
            decreases found.len() - i,
        {
            match read_provider(&found[i].0, &found[i].1, found[i].2, filter, caller, now_ms) {
                Some(p) => {
                    let ghost v = provider_views(out@);
                    let ghost x = (p.0@, p.1@);
                    let mut at: usize = 0;
                    while at < out.len() && !stands_before(ranking, &p, &out[at])
                        invariant
                            at <= out.len(),
                            v == provider_views(out@),
                            x == (p.0@, p.1@),
                            forall|k: int| 0 <= k < at ==> !goes_before(*ranking, x, #[trigger] v[k]),
                        decreases out.len() - at,
                    {
                        assert(v[at as int] == (out@[at as int].0@, out@[at as int].1@));
                        at += 1;
                    }
                    proof {
                        if at < out@.len() {
                            assert(v[at as int] == (out@[at as int].0@, out@[at as int].1@));
                        }
                        lemma_insert_ranked(v, *ranking, x, at as int);
                        lemma_pick_at(found@, i as int, src, v, f, x, at as int);
                        src = src.insert(at as int, i as int);
                    }
                    out.insert(at, p);
                    assert(provider_views(out@) =~= v.insert(at as int, x));
                },
                None => {
                    proof {
                        lemma_skip(found@, i as int, src, provider_views(out@), f);
                    }
                },
            }
            i += 1;
        }
        proof {
            lemma_picked_all(found@, self.table(), "cap/"@, src, provider_views(out@), f);
        }
        out
    }
}

/// The attribute that counts is the first of its name.
pub proof fn law_first_attribute_counts(v: Seq<(Seq<char>, CapValueView)>, name: Seq<char>)
    ensures
        attribute_of(v, name) is None <==> forall|i: int| 0 <= i < v.len() ==> (#[trigger] v[i]).0 != name,
        attribute_of(v, name) is Some ==> exists|i: int|
            0 <= i < v.len() && (#[trigger] v[i]) == (name, attribute_of(v, name)->0) && forall|j: int|
                0 <= j < i ==> (#[trigger] v[j]).0 != name,
    decreases v.len(),
{
    if v.len() > 0 && v[0].0 != name {
        let rest = v.drop_first();
        law_first_attribute_counts(rest, name);
        assert(attribute_of(v, name) == attribute_of(rest, name));
        assert forall|i: int| 0 < i < v.len() implies (#[trigger] v[i]) == rest[i - 1] by {}
        if attribute_of(rest, name) is Some {
            let i = choose|i: int|
                0 <= i < rest.len() && (#[trigger] rest[i]) == (name, attribute_of(rest, name)->0) && forall|j: int|
                    0 <= j < i ==> (#[trigger] rest[j]).0 != name;
            assert(v[i + 1] == rest[i]);
            assert forall|j: int| 0 <= j < i + 1 implies (#[trigger] v[j]).0 != name by {
                if j > 0 {
                    assert(v[j] == rest[j - 1]);
                }
            }
        } else {
            assert forall|i: int| 0 <= i < v.len() implies (#[trigger] v[i]).0 != name by {
                if i > 0 {
                    assert(v[i] == rest[i - 1]);
                }
            }
        }
    } else if v.len() > 0 {
        assert(v[0] == (name, attribute_of(v, name)->0));
    }
}

/// Of two providers in a ranked listing the earlier one has the attribute if the
/// later one has it; and of two numbers, versions, texts or truth values the
/// earlier one is not the greater, or not the smaller where the ranking descends.
pub proof fn law_ranking_goes_by_the_attribute(v: Seq<(NodeView, CapView)>, k: Ranking, i: int, j: int)
    requires
        in_rank_order(v, k),
        0 <= i < j < v.len(),
    ensures
        ({
            let a = attribute_of(v[i].1.attributes, k.attribute@);
            let b = attribute_of(v[j].1.attributes, k.attribute@);
            &&& b is Some && !(b->0 is FloatBits) ==> a is Some
            &&& a is Some && b is Some && a->0 is Integer && b->0 is Integer ==> (if k.descending {
                a->0->Integer_0 >= b->0->Integer_0
            } else {
                a->0->Integer_0 <= b->0->Integer_0
            })
            &&& a is Some && b is Some && a->0 is Text && b->0 is Text ==> (if k.descending {
                !text_lt(a->0->Text_0, b->0->Text_0)
            } else {
                !text_lt(b->0->Text_0, a->0->Text_0)
            })
            &&& a is Some && b is Some && a->0 is Bool && b->0 is Bool ==> (if k.descending {
                b->0->Bool_0 ==> a->0->Bool_0
            } else {
                a->0->Bool_0 ==> b->0->Bool_0
            })
        }),
{
    assert(!goes_before(k, v[j], v[i]));
}

/// Versions go by the first part, then by the second, then by the third.
pub proof fn law_versions_by_their_parts(a: (u32, u32, u32), b: (u32, u32, u32))
    ensures
        value_lt(CapValueView::Version(a.0, a.1, a.2), CapValueView::Version(b.0, b.1, b.2)) <==> a.0 as int
            * 0x1_0000_0000 * 0x1_0000_0000 + a.1 as int * 0x1_0000_0000 + a.2 < b.0 as int * 0x1_0000_0000
            * 0x1_0000_0000 + b.1 as int * 0x1_0000_0000 + b.2,
{
}

/// Floating-point numbers that are not negative go by their bits, negative ones the
/// other way round, and every negative one stands below.
pub proof fn law_floats_as_numbers(x: u64, y: u64)
    ensures
        x < 0x8000_0000_0000_0000 && y < 0x8000_0000_0000_0000 ==> (value_lt(
            CapValueView::FloatBits(x),
            CapValueView::FloatBits(y),
        ) <==> x < y),
        x >= 0x8000_0000_0000_0000 && y >= 0x8000_0000_0000_0000 ==> (value_lt(
            CapValueView::FloatBits(x),
            CapValueView::FloatBits(y),
        ) <==> y < x),
        x >= 0x8000_0000_0000_0000 && y < 0x8000_0000_0000_0000 ==> value_lt(
            CapValueView::FloatBits(x),
            CapValueView::FloatBits(y),
        ) && !value_lt(CapValueView::FloatBits(y), CapValueView::FloatBits(x)),
{
}

/// Values of different kinds go texts first, then whole numbers, floating-point numbers,
/// truth values and versions; `false` goes before `true`.
pub proof fn law_kinds_in_order(s: Seq<char>, n: i64, bits: u64, b: bool, v: (u32, u32, u32))
    ensures
        ({
            let text = CapValueView::Text(s);
            let integer = CapValueView::Integer(n);
            let float = CapValueView::FloatBits(bits);
            let truth = CapValueView::Bool(b);
            let version = CapValueView::Version(v.0, v.1, v.2);
            &&& value_lt(text, integer) && value_lt(integer, float) && value_lt(float, truth) && value_lt(truth, version)
            &&& !value_lt(integer, text) && !value_lt(float, integer) && !value_lt(truth, float) && !value_lt(version, truth)
            &&& value_lt(text, version) && value_lt(integer, version) && value_lt(float, version) && value_lt(text, truth)
            &&& value_lt(integer, truth) && value_lt(text, float)
        }),
        value_lt(CapValueView::Bool(false), CapValueView::Bool(true)),
        !value_lt(CapValueView::Bool(b), CapValueView::Bool(b)),
        !value_lt(CapValueView::Bool(true), CapValueView::Bool(false)),
{
}

/// What is not a number is ranked like an attribute that is missing, and every other
/// attribute by what it is.
pub proof fn law_no_number_counts_as_missing(p: (NodeView, CapView), attribute: Seq<char>)
    ensures
        ranked_by(p, attribute) == (match attribute_of(p.1.attributes, attribute) {
            Some(CapValueView::FloatBits(bits)) => if bits % 0x8000_0000_0000_0000 > 0x7ff0_0000_0000_0000 {
                None
            } else {
                Some(CapValueView::FloatBits(bits))
            },
            v => v,
        }),
{
    if let Some(CapValueView::FloatBits(bits)) = attribute_of(p.1.attributes, attribute) {
        if bits >= 0x8000_0000_0000_0000 {
            assert(bits % 0x8000_0000_0000_0000 == bits - 0x8000_0000_0000_0000) by (nonlinear_arith)
                requires
                    0x8000_0000_0000_0000 <= bits <= 0xffff_ffff_ffff_ffff,
            ;
        } else {
            assert(bits % 0x8000_0000_0000_0000 == bits) by (nonlinear_arith)
                requires
                    0 <= bits < 0x8000_0000_0000_0000,
            ;
        }
    }
}

} // verus!
