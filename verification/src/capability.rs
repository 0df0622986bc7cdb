//! Capabilities: what nodes advertise under `cap/{node}/{ns}/{name}`, what
//! they require under `req/{node}/{ns}/{name}`, and how the two are matched.

use crate::kv::{physical, physical_ms};
use crate::node_id::{denotes, law_denotes_unique, node_text, NodeId, NodeView};
use crate::num::{sat_mul, sat_mul_spec, sat_sub_spec};
use crate::text::{
    contains_text, ends_with, has_char, has_prefix, has_suffix, join2, join3, same_text, split_once,
    strip_prefix, views,
};
use vstd::prelude::*;

verus! {

/// How many refresh intervals an advertisement outlives its last write.
pub const FRESH_INTERVALS: u64 = 3;

/// The refresh interval of an advertisement that does not name its own.
pub const DEFAULT_REFRESH_MS: u64 = 60_000;

// ── Types ────────────────────────────────────────────────────────────────────

/// The value of a capability attribute. A floating-point value is held as its
/// bit pattern.
#[derive(Debug, Clone, PartialEq, Eq)]
pub enum CapValue {
    Text(String),
    Integer(i64),
    FloatBits(u64),
    Bool(bool),
    Version(u32, u32, u32),
}

#[verifier::ext_equal]
pub enum CapValueView {
    Text(Seq<char>),
    Integer(i64),
    FloatBits(u64),
    Bool(bool),
    Version(u32, u32, u32),
}

impl View for CapValue {
    type V = CapValueView;

    open spec fn view(&self) -> CapValueView {
        match self {
            CapValue::Text(s) => CapValueView::Text(s@),
            CapValue::Integer(n) => CapValueView::Integer(*n),
            CapValue::FloatBits(b) => CapValueView::FloatBits(*b),
            CapValue::Bool(b) => CapValueView::Bool(*b),
            CapValue::Version(a, b, c) => CapValueView::Version(*a, *b, *c),
        }
    }
}

/// Something a node offers.
#[derive(Debug, Clone, PartialEq, Eq)]
pub struct Capability {
    pub namespace: String,
    pub name: String,
    pub attributes: Vec<(String, CapValue)>,
    /// Who may see the capability; everybody where the list is empty.
    pub authorized_callers: Vec<String>,
}

#[verifier::ext_equal]
pub struct CapView {
    pub namespace: Seq<char>,
    pub name: Seq<char>,
    pub attributes: Seq<(Seq<char>, CapValueView)>,
    pub authorized_callers: Seq<Seq<char>>,
}

pub open spec fn attr_views(v: Seq<(String, CapValue)>) -> Seq<(Seq<char>, CapValueView)> {
    v.map_values(|a: (String, CapValue)| (a.0@, a.1@))
}

impl View for Capability {
    type V = CapView;

    open spec fn view(&self) -> CapView {
        CapView {
            namespace: self.namespace@,
            name: self.name@,
            attributes: attr_views(self.attributes@),
            authorized_callers: views(self.authorized_callers@),
        }
    }
}

/// Which capabilities a caller looks for.
#[derive(Debug, Clone, PartialEq, Eq)]
pub struct CapFilter {
    pub namespace: String,
    pub name: String,
    /// How old an advertisement may be at most, in milliseconds.
    pub max_age_ms: Option<u64>,
}

#[verifier::ext_equal]
pub struct FilterView {
    pub namespace: Seq<char>,
    pub name: Seq<char>,
    pub max_age_ms: Option<u64>,
}

impl View for CapFilter {
    type V = FilterView;

    open spec fn view(&self) -> FilterView {
        FilterView { namespace: self.namespace@, name: self.name@, max_age_ms: self.max_age_ms }
    }
}

/// On whose behalf capabilities are looked up.
#[derive(Debug, Clone, PartialEq, Eq)]
pub struct CallerContext {
    /// `None` for a caller without restrictions.
    pub caller_id: Option<String>,
}

/// A capability together with how often it is advertised anew.
#[derive(Debug, Clone, PartialEq, Eq)]
pub struct CapEntry {
    pub capability: Capability,
    pub refresh_interval_ms: u64,
}

/// A requirement together with how often it is declared anew.
#[derive(Debug, Clone, PartialEq, Eq)]
pub struct ReqEntry {
    pub filter: CapFilter,
    pub refresh_interval_ms: u64,
}

/// Whether `filter` is met by `cap`.
pub open spec fn matches_cap(filter: FilterView, cap: CapView) -> bool {
    filter.namespace == cap.namespace && filter.name == cap.name
}

/// Whether a caller may see `cap`.
pub open spec fn may_see(caller: Option<Seq<char>>, cap: CapView) -> bool {
    caller is None || cap.authorized_callers.len() == 0 || cap.authorized_callers.contains(
        caller->0,
    )
}

impl Capability {
    /// A capability without attributes that everybody may see.
    pub fn new(namespace: &str, name: &str) -> (c: Capability)
        ensures
            c@ == (CapView {
                namespace: namespace@,
                name: name@,
                attributes: Seq::empty(),
                authorized_callers: Seq::empty(),
            }),
    {
        let c = Capability {
            namespace: namespace.to_owned(),
            name: name.to_owned(),
            attributes: Vec::new(),
            authorized_callers: Vec::new(),
        };
        assert(c@.attributes =~= Seq::empty());
        assert(c@.authorized_callers =~= Seq::empty());
        c
    }

    /// Whether two capabilities are the same.
    pub fn same(&self, other: &Capability) -> (r: bool)
        ensures
            r == (self@ == other@),
    {
        if !same_text(self.namespace.as_str(), other.namespace.as_str()) || !same_text(
            self.name.as_str(),
            other.name.as_str(),
        ) {
            return false;
        }
        if !same_texts(&self.authorized_callers, &other.authorized_callers) {
            return false;
        }
        let r = same_attrs(&self.attributes, &other.attributes);
        assert(r ==> self@ =~= other@);
        r
    }

    /// A copy of the capability.
    pub fn copy(&self) -> (c: Capability)
        ensures
            c@ == self@,
    {
        let mut attributes: Vec<(String, CapValue)> = Vec::new();
        let mut i: usize = 0;
        while i < self.attributes.len()
            invariant
                i <= self.attributes.len(),
                attributes@.len() == i,
                forall|k: int|
                    0 <= k < i ==> (#[trigger] attributes@[k]).0@ == self.attributes@[k].0@
                        && attributes@[k].1@ == self.attributes@[k].1@,
            decreases self.attributes.len() - i,
        {
            attributes.push((self.attributes[i].0.clone(), copy_value(&self.attributes[i].1)));
            i += 1;
        }
        assert(attr_views(attributes@) =~= attr_views(self.attributes@));
        Capability {
            namespace: self.namespace.clone(),
            name: self.name.clone(),
            attributes,
            authorized_callers: crate::text::copy_texts(&self.authorized_callers),
        }
    }
}

fn copy_value(v: &CapValue) -> (r: CapValue)
    ensures
        r@ == v@,
{
    match v {
        CapValue::Text(s) => CapValue::Text(s.clone()),
        CapValue::Integer(n) => CapValue::Integer(*n),
        CapValue::FloatBits(b) => CapValue::FloatBits(*b),
        CapValue::Bool(b) => CapValue::Bool(*b),
        CapValue::Version(a, b, c) => CapValue::Version(*a, *b, *c),
    }
}

fn same_value(x: &CapValue, y: &CapValue) -> (r: bool)
    ensures
        r == (x@ == y@),
{
    match (x, y) {
        (CapValue::Text(a), CapValue::Text(b)) => same_text(a.as_str(), b.as_str()),
        (CapValue::Integer(a), CapValue::Integer(b)) => *a == *b,
        (CapValue::FloatBits(a), CapValue::FloatBits(b)) => *a == *b,
        (CapValue::Bool(a), CapValue::Bool(b)) => *a == *b,
        (CapValue::Version(a, b, c), CapValue::Version(d, e, f)) => *a == *d && *b == *e && *c == *f,
        _ => false,
    }
}

fn same_texts(a: &Vec<String>, b: &Vec<String>) -> (r: bool)
    ensures
        r == (views(a@) == views(b@)),
{
    if a.len() != b.len() {
        assert(views(a@).len() != views(b@).len());
        return false;
    }
    let mut i: usize = 0;
    while i < a.len()
        invariant
            i <= a.len() == b.len(),
            forall|k: int| 0 <= k < i ==> a@[k]@ == b@[k]@,
        decreases a.len() - i,
    {
        if !same_text(a[i].as_str(), b[i].as_str()) {
            assert(views(a@)[i as int] != views(b@)[i as int]);
            return false;
        }
        i += 1;
    }
    assert(views(a@) =~= views(b@));
    true
}

fn same_attrs(a: &Vec<(String, CapValue)>, b: &Vec<(String, CapValue)>) -> (r: bool)
    ensures
        r == (attr_views(a@) == attr_views(b@)),
{
    if a.len() != b.len() {
        assert(attr_views(a@).len() != attr_views(b@).len());
        return false;
    }
    let mut i: usize = 0;
    while i < a.len()
        invariant
            i <= a.len() == b.len(),
            forall|k: int| 0 <= k < i ==> a@[k].0@ == b@[k].0@ && a@[k].1@ == b@[k].1@,
        decreases a.len() - i,
    {
        if !same_text(a[i].0.as_str(), b[i].0.as_str()) || !same_value(&a[i].1, &b[i].1) {
            assert(attr_views(a@)[i as int] != attr_views(b@)[i as int]);
            return false;
        }
        i += 1;
    }
    assert(attr_views(a@) =~= attr_views(b@));
    true
}

impl CapFilter {
    /// A filter for one capability of whatever age.
    pub fn new(namespace: &str, name: &str) -> (f: CapFilter)
        ensures
            f@ == (FilterView { namespace: namespace@, name: name@, max_age_ms: None }),
    {
        CapFilter { namespace: namespace.to_owned(), name: name.to_owned(), max_age_ms: None }
    }

    /// Whether the filter is met by `cap`.
    pub fn matches(&self, cap: &Capability) -> (r: bool)
        ensures
            r == matches_cap(self@, cap@),
    {
        same_text(self.namespace.as_str(), cap.namespace.as_str()) && same_text(
            self.name.as_str(),
            cap.name.as_str(),
        )
    }
}

impl CallerContext {
    pub open spec fn id(&self) -> Option<Seq<char>> {
        match self.caller_id {
            Some(s) => Some(s@),
            None => None,
        }
    }

    /// A caller that may see everything.
    pub fn unrestricted() -> (c: CallerContext)
        ensures
            c.id() is None,
    {
        CallerContext { caller_id: None }
    }

    /// The caller `id`.
    pub fn for_caller(id: &str) -> (c: CallerContext)
        ensures
            c.id() == Some(id@),
    {
        CallerContext { caller_id: Some(id.to_owned()) }
    }

    /// Whether the caller may see `cap`.
    pub fn can_see(&self, cap: &Capability) -> (r: bool)
        ensures
            r == may_see(self.id(), cap@),
    {
        match &self.caller_id {
            None => true,
            Some(id) => cap.authorized_callers.len() == 0 || contains_text(
                &cap.authorized_callers,
                id.as_str(),
            ),
        }
    }
}

// ── Ages ─────────────────────────────────────────────────────────────────────

/// How old an entry is, in wall-clock milliseconds.
pub open spec fn age_of(ts: u64, now_ms: u64) -> int {
    sat_sub_spec(now_ms as int, physical(ts))
}

/// Whether an entry is older than `max_age_ms`.
pub fn is_stale(hlc_ts: u64, now_ms: u64, max_age_ms: u64) -> (r: bool)
    ensures
        r == (age_of(hlc_ts, now_ms) > max_age_ms),
{
    now_ms.saturating_sub(physical_ms(hlc_ts)) > max_age_ms
}

/// Whether an entry that is written anew every `refresh_ms` is still fresh.
pub open spec fn fresh(refresh_ms: u64, ts: u64, now_ms: u64) -> bool {
    age_of(ts, now_ms) <= sat_mul_spec(refresh_ms as int, FRESH_INTERVALS as int)
}

/// Whether an entry that is written anew every `refresh_ms` is still fresh.
pub fn is_fresh(refresh_ms: u64, hlc_ts: u64, now_ms: u64) -> (r: bool)
    ensures
        r == fresh(refresh_ms, hlc_ts, now_ms),
{
    !is_stale(hlc_ts, now_ms, sat_mul(refresh_ms, FRESH_INTERVALS))
}

// ── Keys ─────────────────────────────────────────────────────────────────────

/// `prefix` followed by `node/ns/name`, where no part holds a separator.
pub open spec fn cap_key_of(
    prefix: Seq<char>,
    key: Seq<char>,
    node: NodeView,
    ns: Seq<char>,
    name: Seq<char>,
) -> bool {
    exists|s: Seq<char>|
        key == #[trigger] cap_key_text(prefix, s, ns, name) && !s.contains('/') && !ns.contains('/')
            && !name.contains('/') && denotes(s, node)
}

pub open spec fn cap_key_text(prefix: Seq<char>, node: Seq<char>, ns: Seq<char>, name: Seq<char>) -> Seq<char> {
    prefix + (node + seq!['/'] + (ns + seq!['/'] + name))
}

/// The parts of a key of the form `prefix node/ns/name`, `None` if it has
/// another form.
pub open spec fn cap_key_parts(prefix: Seq<char>, key: Seq<char>) -> Option<(NodeView, Seq<char>, Seq<char>)> {
    if exists|p: (NodeView, Seq<char>, Seq<char>)| #[trigger] cap_key_of(prefix, key, p.0, p.1, p.2) {
        Some(choose|p: (NodeView, Seq<char>, Seq<char>)| #[trigger] cap_key_of(prefix, key, p.0, p.1, p.2))
    } else {
        None
    }
}

pub proof fn lemma_first_split_unique(a: Seq<char>, x: Seq<char>, b: Seq<char>, y: Seq<char>, c: char)
    requires
        a + seq![c] + x == b + seq![c] + y,
        !a.contains(c),
        !b.contains(c),
    ensures
        a == b,
        x == y,
{
    let s = a + seq![c] + x;
    let t = b + seq![c] + y;
    assert(s[a.len() as int] == c);
    assert(t[b.len() as int] == c);
    if a.len() < b.len() {
        assert(b[a.len() as int] == t[a.len() as int]);
        assert(b.contains(c));
    }
    if b.len() < a.len() {
        assert(a[b.len() as int] == s[b.len() as int]);
        assert(a.contains(c));
    }
    assert(a =~= s.take(a.len() as int));
    assert(b =~= t.take(b.len() as int));
    assert(x =~= s.skip(a.len() as int + 1));
    assert(y =~= t.skip(b.len() as int + 1));
}

/// A key has at most one decomposition.
pub proof fn law_cap_key_unique(
    prefix: Seq<char>,
    key: Seq<char>,
    n1: NodeView,
    ns1: Seq<char>,
    name1: Seq<char>,
    n2: NodeView,
    ns2: Seq<char>,
    name2: Seq<char>,
)
    requires
        cap_key_of(prefix, key, n1, ns1, name1),
        cap_key_of(prefix, key, n2, ns2, name2),
    ensures
        n1 == n2,
        ns1 == ns2,
        name1 == name2,
{
    let s = choose|s: Seq<char>|
        key == #[trigger] cap_key_text(prefix, s, ns1, name1) && !s.contains('/') && !ns1.contains('/')
            && !name1.contains('/') && denotes(s, n1);
    let t = choose|t: Seq<char>|
        key == #[trigger] cap_key_text(prefix, t, ns2, name2) && !t.contains('/') && !ns2.contains('/')
            && !name2.contains('/') && denotes(t, n2);
    let r1 = s + seq!['/'] + (ns1 + seq!['/'] + name1);
    let r2 = t + seq!['/'] + (ns2 + seq!['/'] + name2);
    assert(r1 =~= key.skip(prefix.len() as int));
    assert(r2 =~= key.skip(prefix.len() as int));
    lemma_first_split_unique(s, ns1 + seq!['/'] + name1, t, ns2 + seq!['/'] + name2, '/');
    lemma_first_split_unique(ns1, name1, ns2, name2, '/');
    law_denotes_unique(s, n1, n2);
}

/// Writing a key and taking it apart gives the parts back.
pub proof fn law_cap_key_round_trip(prefix: Seq<char>, node: NodeView, ns: Seq<char>, name: Seq<char>)
    requires
        crate::node_id::valid_host(node.host),
        !ns.contains('/'),
        !name.contains('/'),
    ensures
        cap_key_parts(prefix, cap_key_text(prefix, node_text(node), ns, name)) == Some((node, ns, name)),
{
    let key = cap_key_text(prefix, node_text(node), ns, name);
    crate::node_id::law_node_text_round_trip(node);
    crate::node_id::law_node_text_no_slash(node);
    let p = (node, ns, name);
    assert(cap_key_of(prefix, key, p.0, p.1, p.2));
    let q = cap_key_parts(prefix, key)->0;
    law_cap_key_unique(prefix, key, node, ns, name, q.0, q.1, q.2);
}

/// Splits `cap/{node_id}/{ns}/{name}` (or `req/...`) into its three parts.
/// `None` if the key has the wrong shape or too many segments.
pub fn parse_cap_key(prefix: &str, key: &str) -> (r: Option<(NodeId, String, String)>)
    ensures
        r is Some <==> cap_key_parts(prefix@, key@) is Some,
        r matches Some((n, ns, name)) ==> n.wf() && cap_key_parts(prefix@, key@) == Some(
            (n@, ns@, name@),
        ) && cap_key_of(prefix@, key@, n@, ns@, name@),
{
    let rest = match strip_prefix(key, prefix) {
        Some(s) => s,
        None => {
            proof {
                lemma_no_cap_key(prefix@, key@);
            }
            return None;
        },
    };
    assert(rest@ == key@.skip(prefix@.len() as int));
    let (node_text_part, tail) = match split_once(rest.as_str(), '/') {
        Some(p) => p,
        None => {
            proof {
                if exists|p: (NodeView, Seq<char>, Seq<char>)| #[trigger]
                    cap_key_of(prefix@, key@, p.0, p.1, p.2) {
                    let p = choose|p: (NodeView, Seq<char>, Seq<char>)| #[trigger]
                        cap_key_of(prefix@, key@, p.0, p.1, p.2);
                    let s = lemma_cap_rest(prefix@, key@, p.0, p.1, p.2);
                    assert(rest@[s.len() as int] == '/');
                }
            }
            return None;
        },
    };
    let (ns, name) = match split_once(tail.as_str(), '/') {
        Some(p) => p,
        None => {
            proof {
                if exists|p: (NodeView, Seq<char>, Seq<char>)| #[trigger]
                    cap_key_of(prefix@, key@, p.0, p.1, p.2) {
                    let p = choose|p: (NodeView, Seq<char>, Seq<char>)| #[trigger]
                        cap_key_of(prefix@, key@, p.0, p.1, p.2);
                    let s = lemma_cap_rest(prefix@, key@, p.0, p.1, p.2);
                    lemma_first_split_unique(s, p.1 + seq!['/'] + p.2, node_text_part@, tail@, '/');
                    assert(tail@[p.1.len() as int] == '/');
                }
            }
            return None;
        },
    };
    proof {
        assert forall|p: (NodeView, Seq<char>, Seq<char>)| #[trigger]
            cap_key_of(prefix@, key@, p.0, p.1, p.2) implies denotes(node_text_part@, p.0) && p.1
            == ns@ && p.2 == name@ && !name@.contains('/') by {
            let s = lemma_cap_rest(prefix@, key@, p.0, p.1, p.2);
            lemma_first_split_unique(s, p.1 + seq!['/'] + p.2, node_text_part@, tail@, '/');
            lemma_first_split_unique(p.1, p.2, ns@, name@, '/');
        }
    }
    if has_char(name.as_str(), '/') {
        return None;
    }
    match NodeId::parse(node_text_part.as_str()) {
        Err(_) => None,
        Ok(node) => {
            proof {
                assert(key@ =~= cap_key_text(prefix@, node_text_part@, ns@, name@));
                let p = (node@, ns@, name@);
                assert(cap_key_of(prefix@, key@, p.0, p.1, p.2));
                let q = cap_key_parts(prefix@, key@)->0;
                law_cap_key_unique(prefix@, key@, node@, ns@, name@, q.0, q.1, q.2);
            }
            Some((node, ns, name))
        },
    }
}

proof fn lemma_no_cap_key(prefix: Seq<char>, key: Seq<char>)
    requires
        !has_prefix(key, prefix),
    ensures
        cap_key_parts(prefix, key) is None,
{
    if exists|p: (NodeView, Seq<char>, Seq<char>)| #[trigger] cap_key_of(prefix, key, p.0, p.1, p.2) {
        let p = choose|p: (NodeView, Seq<char>, Seq<char>)| #[trigger]
            cap_key_of(prefix, key, p.0, p.1, p.2);
        let s = choose|s: Seq<char>|
            key == #[trigger] cap_key_text(prefix, s, p.1, p.2) && !s.contains('/') && !p.1.contains('/')
                && !p.2.contains('/') && denotes(s, p.0);
        assert(key.take(prefix.len() as int) =~= prefix);
    }
}

proof fn lemma_cap_rest(
    prefix: Seq<char>,
    key: Seq<char>,
    node: NodeView,
    ns: Seq<char>,
    name: Seq<char>,
) -> (s: Seq<char>)
    requires
        cap_key_of(prefix, key, node, ns, name),
    ensures
        key.skip(prefix.len() as int) == s + seq!['/'] + (ns + seq!['/'] + name),
        !s.contains('/'),
        !ns.contains('/'),
        !name.contains('/'),
        denotes(s, node),
{
    let s = choose|s: Seq<char>|
        key == #[trigger] cap_key_text(prefix, s, ns, name) && !s.contains('/') && !ns.contains('/')
            && !name.contains('/') && denotes(s, node);
    assert(key.skip(prefix.len() as int) =~= s + seq!['/'] + (ns + seq!['/'] + name));
    s
}

/// Whether `key` carries a locality path in the place of a capability.
pub open spec fn locality_key(key: Seq<char>) -> bool {
    has_suffix(key, "/locality/self"@)
}

/// Whether `key` carries a locality path in the place of a capability; every
/// scan of the `cap/` prefix has to pass over such keys.
pub fn is_cap_locality_key(key: &str) -> (r: bool)
    ensures
        r == locality_key(key@),
{
    ends_with(key, "/locality/self")
}

/// The key under which `node` advertises or requires a capability.
pub fn capability_key(prefix: &str, node: &NodeId, ns: &str, name: &str) -> (s: String)
    ensures
        s@ == cap_key_text(prefix@, node_text(node@), ns@, name@),
{
    proof {
        reveal_strlit("/");
        assert("/"@ =~= seq!['/']);
    }
    let tail = join3(ns, "/", name);
    let node_part = join3(node.to_text().as_str(), "/", tail.as_str());
    join2(prefix, node_part.as_str())
}

/// An entry is fresh as long as three of its refresh intervals, counted from the
/// wall-clock part of its timestamp, and not longer.
pub proof fn law_fresh_for_three_intervals(refresh_ms: u64, ts: u64, now_ms: u64)
    ensures
        fresh(refresh_ms, ts, now_ms) <==> now_ms - ts as int / 0x1_0000 <= 3 * refresh_ms,
        age_of(ts, now_ms) == (if now_ms >= ts as int / 0x1_0000 {
            now_ms - ts as int / 0x1_0000
        } else {
            0
        }),
{
}

/// A caller that is named sees a capability exactly if nobody is singled out or it
/// is; a caller without restrictions sees every one.
pub proof fn law_only_authorized_callers_see(cap: CapView, caller: Seq<char>)
    ensures
        may_see(None, cap),
        cap.authorized_callers.len() == 0 ==> may_see(Some(caller), cap),
        cap.authorized_callers.contains(caller) ==> may_see(Some(caller), cap),
        cap.authorized_callers.len() > 0 && !cap.authorized_callers.contains(caller) ==> !may_see(
            Some(caller),
            cap,
        ),
{
}

/// A filter is met by the capabilities of its namespace and name, and by no other.
pub proof fn law_filter_names_one_capability(filter: FilterView, cap: CapView)
    ensures
        matches_cap(filter, cap) <==> cap.namespace == filter.namespace && cap.name == filter.name,
{
}

} // verus!
