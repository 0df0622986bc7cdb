//! How capabilities and requirements are written into the table.

use crate::capability::{
    attr_views, CapEntry, CapFilter, CapValue, CapValueView, CapView, Capability, FilterView, ReqEntry,
    DEFAULT_REFRESH_MS,
};
use crate::text::views;
use vstd::prelude::*;

verus! {

/// An attribute as plain values: its key, which kind of value it has, and one
/// slot for each kind.
pub type RawAttr = (String, (u8, String, i64, u64), (u32, u32, u32));

/// The model of a [`RawAttr`].
pub type AttrParts = (Seq<char>, (u8, Seq<char>, i64, u64), (u32, u32, u32));

/// A capability as plain values.
pub type RawCap = (String, String, Vec<RawAttr>, Vec<String>);

/// A [`RawCap`] whose texts lie in the bytes that it was read from.
pub type BorrowedCap<'a> = (
    &'a str,
    &'a str,
    Vec<(&'a str, (u8, &'a str, i64, u64), (u32, u32, u32))>,
    Vec<&'a str>,
);

/// The model of a [`RawCap`].
pub type CapParts = (Seq<char>, Seq<char>, Seq<AttrParts>, Seq<Seq<char>>);

pub open spec fn raw_attr_view(a: RawAttr) -> AttrParts {
    (a.0@, (a.1.0, a.1.1@, a.1.2, a.1.3), a.2)
}

pub open spec fn raw_attr_views(v: Seq<RawAttr>) -> Seq<AttrParts> {
    v.map_values(|a: RawAttr| raw_attr_view(a))
}

pub open spec fn raw_cap_view(c: RawCap) -> CapParts {
    (c.0@, c.1@, raw_attr_views(c.2@), views(c.3@))
}

// ── Outside calls ────────────────────────────────────────────────────────────

/// The bytes that `bincode` writes for a capability.
pub uninterp spec fn cap_bytes(
    c: (Seq<char>, Seq<char>, Seq<(Seq<char>, (u8, Seq<char>, i64, u64), (u32, u32, u32))>, Seq<Seq<char>>),
) -> Seq<u8>;

/// The capability that `bincode` reads from `bytes`, `None` where it finds
/// none.
pub uninterp spec fn cap_parts(bytes: Seq<u8>) -> Option<
    (Seq<char>, Seq<char>, Seq<(Seq<char>, (u8, Seq<char>, i64, u64), (u32, u32, u32))>, Seq<Seq<char>>),
>;

/// The bytes that `bincode` writes for a capability and its refresh interval.
pub uninterp spec fn cap_entry_bytes(
    c: (Seq<char>, Seq<char>, Seq<(Seq<char>, (u8, Seq<char>, i64, u64), (u32, u32, u32))>, Seq<Seq<char>>),
    refresh_ms: u64,
) -> Seq<u8>;

/// The capability and refresh interval that `bincode` reads from `bytes`,
/// `None` where it does not find both.
pub uninterp spec fn cap_entry_parts(bytes: Seq<u8>) -> Option<
    (
        (Seq<char>, Seq<char>, Seq<(Seq<char>, (u8, Seq<char>, i64, u64), (u32, u32, u32))>, Seq<Seq<char>>),
        u64,
    ),
>;

/// The bytes that `bincode` writes for a requirement.
pub uninterp spec fn req_bytes(ns: Seq<char>, name: Seq<char>, max_age_ms: Option<u64>, refresh_ms: u64) -> Seq<u8>;

/// The requirement that `bincode` reads from `bytes`, `None` where it finds
/// none.
pub uninterp spec fn req_parts(bytes: Seq<u8>) -> Option<(Seq<char>, Seq<char>, Option<u64>, u64)>;

/// The bare filter that `bincode` reads from `bytes`, `None` where it finds
/// none.
pub uninterp spec fn filter_parts(bytes: Seq<u8>) -> Option<(Seq<char>, Seq<char>, Option<u64>)>;

/// `bincode::serde::encode_to_vec` of a capability: the result is a function
/// of the capability, and reading it gives the capability back. Nothing follows
/// the capability, so reading a capability with its refresh interval fails.
#[verifier::external_body]
fn encode_raw_cap(c: &RawCap) -> (r: Vec<u8>)
    ensures
        r@ == cap_bytes(raw_cap_view(*c)),
        cap_parts(r@) == Some(raw_cap_view(*c)),
        cap_entry_parts(r@) is None,
{
    bincode::serde::encode_to_vec(c, bincode::config::standard()).unwrap_or_default()
}

/// `bincode::serde::decode_from_slice` of a capability: the result is a
/// function of the bytes. Before it, `bincode::serde::borrow_decode_from_slice`
/// reads the same with borrowed texts: it fails where a length goes beyond the
/// bytes, for which an owned text would be allocated first.
#[verifier::external_body]
fn decode_raw_cap(bytes: &Vec<u8>) -> (r: Option<RawCap>)
    ensures
        r is Some <==> cap_parts(bytes@) is Some,
        r matches Some(c) ==> cap_parts(bytes@) == Some(raw_cap_view(c)),
{
    let cfg = bincode::config::standard();
    bincode::serde::borrow_decode_from_slice::<BorrowedCap, _>(bytes, cfg).ok()?;
    bincode::serde::decode_from_slice(bytes, cfg).ok().map(|(v, _)| v)
}

/// `bincode::serde::encode_to_vec` of a capability and its refresh interval:
/// the result is a function of both, and reading it gives both back. The
/// capability comes first, and reading a capability takes no notice of what
/// follows it, so that gives the capability.
#[verifier::external_body]
fn encode_raw_entry(c: &RawCap, refresh_ms: u64) -> (r: Vec<u8>)
    ensures
        r@ == cap_entry_bytes(raw_cap_view(*c), refresh_ms),
        cap_entry_parts(r@) == Some((raw_cap_view(*c), refresh_ms)),
        cap_parts(r@) == Some(raw_cap_view(*c)),
{
    bincode::serde::encode_to_vec((c, refresh_ms), bincode::config::standard()).unwrap_or_default()
}

/// `bincode::serde::decode_from_slice` of a capability and its refresh
/// interval: the result is a function of the bytes. Before it,
/// `bincode::serde::borrow_decode_from_slice` reads the same with borrowed
/// texts: it fails where a length goes beyond the bytes, for which an owned
/// text would be allocated first.
#[verifier::external_body]
fn decode_raw_entry(bytes: &Vec<u8>) -> (r: Option<(RawCap, u64)>)
    ensures
        r is Some <==> cap_entry_parts(bytes@) is Some,
        r matches Some(c) ==> cap_entry_parts(bytes@) == Some((raw_cap_view(c.0), c.1)),
{
    let cfg = bincode::config::standard();
    bincode::serde::borrow_decode_from_slice::<(BorrowedCap, u64), _>(bytes, cfg).ok()?;
    bincode::serde::decode_from_slice(bytes, cfg).ok().map(|(v, _)| v)
}

/// `bincode::serde::encode_to_vec` of a requirement: the result is a function
/// of its parts, and reading it gives them back. The filter comes first, and
/// reading a bare filter takes no notice of what follows it, so that gives the
/// filter.
#[verifier::external_body]
fn encode_raw_req(ns: &str, name: &str, max_age_ms: Option<u64>, refresh_ms: u64) -> (r: Vec<u8>)
    ensures
        r@ == req_bytes(ns@, name@, max_age_ms, refresh_ms),
        req_parts(r@) == Some((ns@, name@, max_age_ms, refresh_ms)),
        filter_parts(r@) == Some((ns@, name@, max_age_ms)),
{
    let parts = (ns, name, max_age_ms, refresh_ms);
    bincode::serde::encode_to_vec(parts, bincode::config::standard()).unwrap_or_default()
}

/// `bincode::serde::decode_from_slice` of a requirement: the result is a
/// function of the bytes. Before it, `bincode::serde::borrow_decode_from_slice`
/// reads the same with borrowed texts: it fails where a length goes beyond the
/// bytes, for which an owned text would be allocated first.
#[verifier::external_body]
fn decode_raw_req(bytes: &Vec<u8>) -> (r: Option<(String, String, Option<u64>, u64)>)
    ensures
        r is Some <==> req_parts(bytes@) is Some,
        r matches Some(q) ==> req_parts(bytes@) == Some((q.0@, q.1@, q.2, q.3)),
{
    let cfg = bincode::config::standard();
    bincode::serde::borrow_decode_from_slice::<(&str, &str, Option<u64>, u64), _>(bytes, cfg).ok()?;
    bincode::serde::decode_from_slice(bytes, cfg).ok().map(|(v, _)| v)
}

/// The bytes that `bincode` writes for a bare filter.
pub uninterp spec fn filter_bytes(ns: Seq<char>, name: Seq<char>, max_age_ms: Option<u64>) -> Seq<u8>;

/// `bincode::serde::encode_to_vec` of a bare filter: the result is a function
/// of its parts, and reading it gives them back. Nothing follows the filter, so
/// reading a requirement fails.
#[verifier::external_body]
fn encode_raw_filter(ns: &str, name: &str, max_age_ms: Option<u64>) -> (r: Vec<u8>)
    ensures
        r@ == filter_bytes(ns@, name@, max_age_ms),
        filter_parts(r@) == Some((ns@, name@, max_age_ms)),
        req_parts(r@) is None,
{
    bincode::serde::encode_to_vec((ns, name, max_age_ms), bincode::config::standard())
        .unwrap_or_default()
}

/// `bincode::serde::decode_from_slice` of a bare filter: the result is a
/// function of the bytes. Before it, `bincode::serde::borrow_decode_from_slice`
/// reads the same with borrowed texts: it fails where a length goes beyond the
/// bytes, for which an owned text would be allocated first.
#[verifier::external_body]
fn decode_raw_filter(bytes: &Vec<u8>) -> (r: Option<(String, String, Option<u64>)>)
    ensures
        r is Some <==> filter_parts(bytes@) is Some,
        r matches Some(q) ==> filter_parts(bytes@) == Some((q.0@, q.1@, q.2)),
{
    let cfg = bincode::config::standard();
    bincode::serde::borrow_decode_from_slice::<(&str, &str, Option<u64>), _>(bytes, cfg).ok()?;
    bincode::serde::decode_from_slice(bytes, cfg).ok().map(|(v, _)| v)
}

// ── Capabilities ─────────────────────────────────────────────────────────────

/// The value that an attribute's parts stand for, `None` for an unknown kind.
pub open spec fn value_of(a: AttrParts) -> Option<CapValueView> {
    match a.1.0 {
        0u8 => Some(CapValueView::Text(a.1.1)),
        1u8 => Some(CapValueView::Integer(a.1.2)),
        2u8 => Some(CapValueView::FloatBits(a.1.3)),
        3u8 => Some(CapValueView::Bool(a.1.3 != 0)),
        4u8 => Some(CapValueView::Version(a.2.0, a.2.1, a.2.2)),
        _ => None,
    }
}

/// The attributes that their parts stand for, `None` if one is of an unknown
/// kind.
pub open spec fn attrs_of(v: Seq<AttrParts>) -> Option<Seq<(Seq<char>, CapValueView)>>
    decreases v.len(),
{
    if v.len() == 0 {
        Some(Seq::empty())
    } else {
        match (attrs_of(v.drop_last()), value_of(v.last())) {
            (Some(front), Some(x)) => Some(front.push((v.last().0, x))),
            _ => None,
        }
    }
}

/// The capability that its parts stand for.
pub open spec fn cap_of(p: CapParts) -> Option<CapView> {
    match attrs_of(p.2) {
        Some(attributes) => Some(
            CapView { namespace: p.0, name: p.1, attributes, authorized_callers: p.3 },
        ),
        None => None,
    }
}

/// The parts of an attribute.
pub open spec fn attr_parts(k: Seq<char>, v: CapValueView) -> AttrParts {
    match v {
        CapValueView::Text(s) => (k, (0u8, s, 0, 0), (0, 0, 0)),
        CapValueView::Integer(n) => (k, (1u8, Seq::empty(), n, 0), (0, 0, 0)),
        CapValueView::FloatBits(b) => (k, (2u8, Seq::empty(), 0, b), (0, 0, 0)),
        CapValueView::Bool(b) => (
            k,
            (
                3u8,
                Seq::empty(),
                0,
                if b {
                    1
                } else {
                    0
                },
            ),
            (0, 0, 0),
        ),
        CapValueView::Version(x, y, z) => (k, (4u8, Seq::empty(), 0, 0), (x, y, z)),
    }
}

/// The parts of a capability.
pub open spec fn parts_of_cap(c: CapView) -> CapParts {
    (
        c.namespace,
        c.name,
        c.attributes.map_values(|a: (Seq<char>, CapValueView)| attr_parts(a.0, a.1)),
        c.authorized_callers,
    )
}

/// A capability stands for itself once written and read.
pub proof fn law_cap_parts_round_trip(c: CapView)
    ensures
        cap_of(parts_of_cap(c)) == Some(c),
{
    lemma_attrs_round_trip(c.attributes);
    assert(cap_of(parts_of_cap(c))->0 =~= c);
}

proof fn lemma_attrs_round_trip(v: Seq<(Seq<char>, CapValueView)>)
    ensures
        attrs_of(v.map_values(|a: (Seq<char>, CapValueView)| attr_parts(a.0, a.1))) == Some(v),
    decreases v.len(),
{
    let p = v.map_values(|a: (Seq<char>, CapValueView)| attr_parts(a.0, a.1));
    if v.len() > 0 {
        lemma_attrs_round_trip(v.drop_last());
        assert(p.drop_last() =~= v.drop_last().map_values(
            |a: (Seq<char>, CapValueView)| attr_parts(a.0, a.1),
        ));
        assert(v.drop_last().push(v.last()) =~= v);
    } else {
        assert(v =~= Seq::empty());
    }
}

fn value_from(a: &RawAttr) -> (r: Option<CapValue>)
    ensures
        r is Some <==> value_of(raw_attr_view(*a)) is Some,
        r matches Some(v) ==> value_of(raw_attr_view(*a)) == Some(v@),
{
    match a.1.0 {
        0 => Some(CapValue::Text(a.1.1.clone())),
        1 => Some(CapValue::Integer(a.1.2)),
        2 => Some(CapValue::FloatBits(a.1.3)),
        3 => Some(CapValue::Bool(a.1.3 != 0)),
        4 => Some(CapValue::Version(a.2.0, a.2.1, a.2.2)),
        _ => None,
    }
}

proof fn lemma_attrs_prefix(v: Seq<AttrParts>, i: int)
    requires
        0 <= i <= v.len(),
        attrs_of(v.take(i)) is None,
    ensures
        attrs_of(v) is None,
    decreases v.len() - i,
{
    if i == v.len() {
        assert(v.take(i) =~= v);
    } else {
        assert(v.take(i + 1).drop_last() =~= v.take(i));
        lemma_attrs_prefix(v, i + 1);
    }
}

fn attrs_from(raw: &Vec<RawAttr>) -> (r: Option<Vec<(String, CapValue)>>)
    ensures
        r is Some <==> attrs_of(raw_attr_views(raw@)) is Some,
        r matches Some(v) ==> attrs_of(raw_attr_views(raw@)) == Some(attr_views(v@)),
{
    let ghost w = raw_attr_views(raw@);
    let mut out: Vec<(String, CapValue)> = Vec::new();
    let mut i: usize = 0;
    assert(w.take(0) =~= Seq::empty());
    assert(attr_views(out@) =~= Seq::empty());
    while i < raw.len()
        invariant
            i <= raw.len(),
            w == raw_attr_views(raw@),
            attrs_of(w.take(i as int)) == Some(attr_views(out@)),
        decreases raw.len() - i,
    {
        proof {
            assert(w.take(i + 1).drop_last() =~= w.take(i as int));
            assert(w.take(i + 1).last() == raw_attr_view(raw@[i as int]));
        }
        match value_from(&raw[i]) {
            None => {
                proof {
                    lemma_attrs_prefix(w, i + 1);
                }
                return None;
            },
            Some(v) => {
                let ghost before = out@;
                out.push((raw[i].0.clone(), v));
                assert(attr_views(out@) =~= attr_views(before).push((raw@[i as int].0@, v@)));
            },
        }
        i += 1;
    }
    assert(w.take(i as int) =~= w);
    Some(out)
}

pub(crate) fn cap_from(raw: RawCap) -> (r: Option<Capability>)
    ensures
        r is Some <==> cap_of(raw_cap_view(raw)) is Some,
        r matches Some(c) ==> cap_of(raw_cap_view(raw)) == Some(c@),
{
    let (namespace, name, attrs, authorized_callers) = raw;
    match attrs_from(&attrs) {
        None => None,
        Some(attributes) => Some(Capability { namespace, name, attributes, authorized_callers }),
    }
}

fn attr_into(k: &String, v: &CapValue) -> (r: RawAttr)
    ensures
        raw_attr_view(r) == attr_parts(k@, v@),
{
    let key = k.clone();
    let r = match v {
        CapValue::Text(s) => (key, (0, s.clone(), 0, 0), (0, 0, 0)),
        CapValue::Integer(n) => (key, (1, String::new(), *n, 0), (0, 0, 0)),
        CapValue::FloatBits(b) => (key, (2, String::new(), 0, *b), (0, 0, 0)),
        CapValue::Bool(b) => (
            key,
            (
                3,
                String::new(),
                0,
                if *b {
                    1
                } else {
                    0
                },
            ),
            (0, 0, 0),
        ),
        CapValue::Version(x, y, z) => (key, (4, String::new(), 0, 0), (*x, *y, *z)),
    };
    r
}

pub(crate) fn cap_into(c: &Capability) -> (raw: RawCap)
    ensures
        raw_cap_view(raw) == parts_of_cap(c@),
{
    let mut attrs: Vec<RawAttr> = Vec::new();
    let mut i: usize = 0;
    while i < c.attributes.len()
        invariant
            i <= c.attributes.len(),
            attrs@.len() == i,
            forall|k: int|
                0 <= k < i ==> raw_attr_view(#[trigger] attrs@[k]) == attr_parts(
                    c.attributes@[k].0@,
                    c.attributes@[k].1@,
                ),
        decreases c.attributes.len() - i,
    {
        attrs.push(attr_into(&c.attributes[i].0, &c.attributes[i].1));
        i += 1;
    }
    assert(raw_attr_views(attrs@) =~= parts_of_cap(c@).2);
    (
        c.namespace.clone(),
        c.name.clone(),
        attrs,
        crate::text::copy_texts(&c.authorized_callers),
    )
}

/// The capability in `bytes`, if there is one.
pub open spec fn cap_in(bytes: Seq<u8>) -> Option<CapView> {
    match cap_parts(bytes) {
        Some(p) => cap_of(p),
        None => None,
    }
}

/// The advertisement in `bytes`: a capability with its refresh interval, or a
/// bare capability, to which the default interval applies.
pub open spec fn entry_in(bytes: Seq<u8>) -> Option<(CapView, u64)> {
    let with_interval = match cap_entry_parts(bytes) {
        Some(p) => match cap_of(p.0) {
            Some(c) => Some((c, p.1)),
            None => None,
        },
        None => None,
    };
    if with_interval is Some {
        with_interval
    } else {
        match cap_in(bytes) {
            Some(c) => Some((c, DEFAULT_REFRESH_MS)),
            None => None,
        }
    }
}

impl Capability {
    /// The bytes of the capability; they hold it.
    pub fn encode(&self) -> (r: Vec<u8>)
        ensures
            r@ == cap_bytes(parts_of_cap(self@)),
            cap_in(r@) == Some(self@),
            entry_in(r@) == Some((self@, DEFAULT_REFRESH_MS)),
    {
        proof {
            law_cap_parts_round_trip(self@);
        }
        encode_raw_cap(&cap_into(self))
    }

    /// The capability in `bytes`, if there is one.
    pub fn decode(bytes: &Vec<u8>) -> (r: Option<Capability>)
        ensures
            r is Some <==> cap_in(bytes@) is Some,
            r matches Some(c) ==> cap_in(bytes@) == Some(c@),
    {
        match decode_raw_cap(bytes) {
            None => None,
            Some(raw) => cap_from(raw),
        }
    }
}

impl CapEntry {
    /// The bytes of the advertisement; they hold it.
    pub fn encode(&self) -> (r: Vec<u8>)
        ensures
            r@ == cap_entry_bytes(parts_of_cap(self.capability@), self.refresh_interval_ms),
            entry_in(r@) == Some((self.capability@, self.refresh_interval_ms)),
            cap_in(r@) == Some(self.capability@),
    {
        proof {
            law_cap_parts_round_trip(self.capability@);
        }
        encode_raw_entry(&cap_into(&self.capability), self.refresh_interval_ms)
    }

    /// The advertisement in `bytes`, if there is one.
    pub fn decode(bytes: &Vec<u8>) -> (r: Option<CapEntry>)
        ensures
            r is Some <==> entry_in(bytes@) is Some,
            r matches Some(e) ==> entry_in(bytes@) == Some((e.capability@, e.refresh_interval_ms)),
    {
        let full = match decode_raw_entry(bytes) {
            None => None,
            Some((raw, refresh)) => match cap_from(raw) {
                None => None,
                Some(capability) => Some(CapEntry { capability, refresh_interval_ms: refresh }),
            },
        };
        if full.is_some() {
            return full;
        }
        match Capability::decode(bytes) {
            None => None,
            Some(capability) => Some(
                CapEntry { capability, refresh_interval_ms: DEFAULT_REFRESH_MS },
            ),
        }
    }
}

// ── Requirements ─────────────────────────────────────────────────────────────

/// The requirement in `bytes`, if there is one.
pub open spec fn req_in(bytes: Seq<u8>) -> Option<(FilterView, u64)> {
    match req_parts(bytes) {
        Some(q) => Some((FilterView { namespace: q.0, name: q.1, max_age_ms: q.2 }, q.3)),
        None => None,
    }
}

/// The requirement in `bytes`, or a bare filter, to which the default refresh
/// interval applies.
pub open spec fn req_or_filter_in(bytes: Seq<u8>) -> Option<(FilterView, u64)> {
    if req_in(bytes) is Some {
        req_in(bytes)
    } else {
        match filter_parts(bytes) {
            Some(q) => Some(
                (FilterView { namespace: q.0, name: q.1, max_age_ms: q.2 }, DEFAULT_REFRESH_MS),
            ),
            None => None,
        }
    }
}

impl ReqEntry {
    /// The bytes of the requirement; they hold it.
    pub fn encode(&self) -> (r: Vec<u8>)
        ensures
            r@ == req_bytes(
                self.filter.namespace@,
                self.filter.name@,
                self.filter.max_age_ms,
                self.refresh_interval_ms,
            ),
            req_in(r@) == Some((self.filter@, self.refresh_interval_ms)),
            filter_parts(r@) == Some(
                (self.filter.namespace@, self.filter.name@, self.filter.max_age_ms),
            ),
    {
        encode_raw_req(
            self.filter.namespace.as_str(),
            self.filter.name.as_str(),
            self.filter.max_age_ms,
            self.refresh_interval_ms,
        )
    }

    /// The requirement in `bytes`, if there is one.
    pub fn decode(bytes: &Vec<u8>) -> (r: Option<ReqEntry>)
        ensures
            r is Some <==> req_in(bytes@) is Some,
            r matches Some(e) ==> req_in(bytes@) == Some((e.filter@, e.refresh_interval_ms)),
    {
        match decode_raw_req(bytes) {
            None => None,
            Some((namespace, name, max_age_ms, refresh_interval_ms)) => Some(
                ReqEntry { filter: CapFilter { namespace, name, max_age_ms }, refresh_interval_ms },
            ),
        }
    }

    /// The requirement or bare filter in `bytes`, if there is one.
    pub fn decode_lenient(bytes: &Vec<u8>) -> (r: Option<ReqEntry>)
        ensures
            r is Some <==> req_or_filter_in(bytes@) is Some,
            r matches Some(e) ==> req_or_filter_in(bytes@) == Some((e.filter@, e.refresh_interval_ms)),
    {
        let full = ReqEntry::decode(bytes);
        if full.is_some() {
            return full;
        }
        match CapFilter::decode(bytes) {
            None => None,
            Some(filter) => Some(ReqEntry { filter, refresh_interval_ms: DEFAULT_REFRESH_MS }),
        }
    }
}

impl CapFilter {
    /// The bytes of the bare filter; they hold it.
    pub fn encode(&self) -> (r: Vec<u8>)
        ensures
            r@ == filter_bytes(self.namespace@, self.name@, self.max_age_ms),
            filter_parts(r@) == Some((self.namespace@, self.name@, self.max_age_ms)),
            req_or_filter_in(r@) == Some((self@, DEFAULT_REFRESH_MS)),
    {
        encode_raw_filter(self.namespace.as_str(), self.name.as_str(), self.max_age_ms)
    }

    /// The bare filter in `bytes`, if there is one.
    pub fn decode(bytes: &Vec<u8>) -> (r: Option<CapFilter>)
        ensures
            r is Some <==> filter_parts(bytes@) is Some,
            r matches Some(f) ==> filter_parts(bytes@) == Some(
                (f.namespace@, f.name@, f.max_age_ms),
            ),
    {
        match decode_raw_filter(bytes) {
            None => None,
            Some((namespace, name, max_age_ms)) => Some(CapFilter { namespace, name, max_age_ms }),
        }
    }
}

/// Bytes that hold a capability or a need without an interval count as refreshed once a
/// minute; where there is an interval, it counts.
pub proof fn law_refreshed_each_minute_unless_told(bytes: Seq<u8>, c: CapView)
    ensures
        cap_entry_parts(bytes) is None && cap_in(bytes) == Some(c) ==> entry_in(bytes) == Some((c, 60_000u64)),
        cap_entry_parts(bytes) is Some && cap_of((cap_entry_parts(bytes)->0).0) == Some(c) ==> entry_in(bytes)
            == Some((c, (cap_entry_parts(bytes)->0).1)),
        req_in(bytes) is None && filter_parts(bytes) is Some ==> (req_or_filter_in(bytes)->0).1 == 60_000,
        req_in(bytes) is Some ==> req_or_filter_in(bytes) == req_in(bytes),
{
}

} // verus!
