//! The gateway's listings: who provides a capability, and which prompts are
//! published.

use crate::capability::{attr_views, CapValue, CapValueView, CapView, Capability};
use crate::fleet::lemma_same_order;
use crate::gateway::{bool_json, fail, failed, good, reply, write_bool, GatewayReply};
use crate::json::{
    comma_joined, join_commas, json_or, json_quote, json_string, read_json_or,
};
use crate::kv::{outcome_for, wrote};
use crate::llm::{
    holds_template, is_template, prompt_key_text, prompt_named, read_prompt_key, LlmHandle, PROMPTS_PREFIX,
};
use crate::node_id::{node_text, NodeId, NodeView};
use crate::resolve::provider_views;
use crate::scan::{
    lemma_pick, lemma_picked_all, lemma_skip, lists_live_ts, lists_readings, picked, Reading,
};
use crate::store::live;
use crate::text::{
    dec_string, dec_text, has_prefix, join2, join3, lemma_lt_irreflexive, lemma_lt_total, lemma_lt_transitive,
    same_text, text_before, text_lt, views,
};
use vstd::prelude::*;

verus! {

// ── Capabilities ─────────────────────────────────────────────────────────────

/// An integer in decimal.
pub open spec fn int_text(n: i64) -> Seq<char> {
    if n < 0 {
        "-"@ + dec_text((-n) as nat)
    } else {
        dec_text(n as nat)
    }
}

fn int_string(n: i64) -> (s: String)
    ensures
        s@ == int_text(n),
{
    if n < 0 {
        let m: u64 = (-(n + 1)) as u64 + 1;
        join2("-", dec_string(m).as_str())
    } else {
        dec_string(n as u64)
    }
}

/// The JSON text that `floats` gives for a bit pattern, `null` where it gives
/// none.
pub open spec fn float_text(floats: Seq<(u64, String)>, bits: u64) -> Seq<char>
    decreases floats.len(),
{
    if floats.len() == 0 {
        "null"@
    } else if floats[0].0 == bits {
        floats[0].1@
    } else {
        float_text(floats.drop_first(), bits)
    }
}

fn find_float(floats: &Vec<(u64, String)>, bits: u64) -> (s: String)
    ensures
        s@ == float_text(floats@, bits),
{
    let mut i: usize = 0;
    assert(floats@.skip(0) =~= floats@);
    while i < floats.len()
        invariant
            i <= floats.len(),
            float_text(floats@, bits) == float_text(floats@.skip(i as int), bits),
        decreases floats.len() - i,
    {
        assert(floats@.skip(i as int).drop_first() =~= floats@.skip(i + 1));
        if floats[i].0 == bits {
            return floats[i].1.clone();
        }
        i += 1;
    }
    "null".to_owned()
}

/// The value of an attribute inside an answer.
pub open spec fn value_text(v: CapValueView, floats: Seq<(u64, String)>) -> Seq<char> {
    match v {
        CapValueView::Text(s) => json_string(s),
        CapValueView::Integer(n) => int_text(n),
        CapValueView::FloatBits(b) => float_text(floats, b),
        CapValueView::Bool(b) => bool_json(b),
        CapValueView::Version(a, b, c) => "\""@ + dec_text(a as nat) + "."@ + dec_text(b as nat) + "."@
            + dec_text(c as nat) + "\""@,
    }
}

/// Writes the value of an attribute. `floats` gives the text of the
/// floating-point values by their bits.
pub fn capvalue_to_json(v: &CapValue, floats: &Vec<(u64, String)>) -> (s: String)
    ensures
        s@ == value_text(v@, floats@),
{
    match v {
        CapValue::Text(s) => json_quote(s.as_str()),
        CapValue::Integer(n) => int_string(*n),
        CapValue::FloatBits(b) => find_float(floats, *b),
        CapValue::Bool(b) => write_bool(*b),
        CapValue::Version(a, b, c) => {
            let x = join3("\"", dec_string(*a as u64).as_str(), ".");
            let y = join3(x.as_str(), dec_string(*b as u64).as_str(), ".");
            join3(y.as_str(), dec_string(*c as u64).as_str(), "\"")
        },
    }
}

/// An attribute inside an answer.
pub open spec fn member_text(a: (Seq<char>, CapValueView), floats: Seq<(u64, String)>) -> Seq<char> {
    json_string(a.0) + ":"@ + value_text(a.1, floats)
}

/// The model of an attribute.
pub type AttrView = (Seq<char>, CapValueView);

/// The value of `name`: where it occurs more than once, the last one.
pub open spec fn last_value(attrs: Seq<AttrView>, name: Seq<char>) -> Option<CapValueView>
    decreases attrs.len(),
{
    if attrs.len() == 0 {
        None
    } else if attrs.last().0 == name {
        Some(attrs.last().1)
    } else {
        last_value(attrs.drop_last(), name)
    }
}

/// `m` holds each name of `attrs` once, with its value, in the order of the
/// names.
pub open spec fn is_by_name(m: Seq<AttrView>, attrs: Seq<AttrView>) -> bool {
    &&& forall|i: int, j: int| 0 <= i < j < m.len() ==> text_lt((#[trigger] m[i]).0, (#[trigger] m[j]).0)
    &&& forall|a: AttrView| #[trigger] m.contains(a) <==> last_value(attrs, a.0) == Some(a.1)
}

/// The attributes in the order of their names, each name once.
pub open spec fn by_name(attrs: Seq<AttrView>) -> Seq<AttrView> {
    choose|m: Seq<AttrView>| is_by_name(m, attrs)
}

/// There is only one such list.
proof fn lemma_by_name(m: Seq<AttrView>, attrs: Seq<AttrView>)
    requires
        is_by_name(m, attrs),
    ensures
        by_name(attrs) == m,
{
    let n = by_name(attrs);
    assert(is_by_name(n, attrs));
    let order = |x: AttrView, y: AttrView| text_lt(x.0, y.0);
    assert forall|x: AttrView, y: AttrView| #[trigger] order(x, y) implies !order(y, x) by {
        if text_lt(y.0, x.0) {
            lemma_lt_transitive(x.0, y.0, x.0);
            lemma_lt_irreflexive(x.0);
        }
    }
    assert forall|a: AttrView| m.to_set().contains(a) <==> n.to_set().contains(a) by {
        assert(m.contains(a) <==> n.contains(a));
    }
    assert(m.to_set() =~= n.to_set());
    lemma_same_order(m, n, order);
}

/// One more attribute: `at` is where its name belongs.
proof fn lemma_put(m: Seq<AttrView>, front: Seq<AttrView>, x: AttrView, at: int)
    requires
        is_by_name(m, front),
        0 <= at <= m.len(),
        forall|i: int| 0 <= i < at ==> text_lt((#[trigger] m[i]).0, x.0),
        at < m.len() ==> !text_lt(m[at].0, x.0),
    ensures
        at < m.len() && m[at].0 == x.0 ==> is_by_name(m.update(at, x), front.push(x)),
        !(at < m.len() && m[at].0 == x.0) ==> is_by_name(m.insert(at, x), front.push(x)),
{
    let all = front.push(x);
    assert(all.drop_last() =~= front);
    let same = at < m.len() && m[at].0 == x.0;
    if same {
        let u = m.update(at, x);
        assert forall|i: int, j: int| 0 <= i < j < u.len() implies text_lt((#[trigger] u[i]).0, (#[trigger] u[j]).0) by {
            assert(text_lt(m[i].0, m[j].0));
        }
        assert forall|a: AttrView| #[trigger] u.contains(a) <==> last_value(all, a.0) == Some(a.1) by {
            assert(m.contains(a) <==> last_value(front, a.0) == Some(a.1));
            if u.contains(a) {
                let i = choose|i: int| 0 <= i < u.len() && u[i] == a;
                if i != at {
                    assert(m[i] == a);
                    lemma_names_differ(m, front, i, at);
                }
            }
            if last_value(all, a.0) == Some(a.1) {
                if a.0 == x.0 {
                    assert(u[at] == a);
                } else {
                    let i = choose|i: int| 0 <= i < m.len() && m[i] == a;
                    assert(u[i] == a);
                }
            }
        }
    } else {
        let u = m.insert(at, x);
        if at < m.len() {
            lemma_lt_total(m[at].0, x.0);
        }
        assert forall|i: int, j: int| 0 <= i < j < u.len() implies text_lt((#[trigger] u[i]).0, (#[trigger] u[j]).0) by {
            let a = if i < at {
                i
            } else {
                i - 1
            };
            let b = if j < at {
                j
            } else {
                j - 1
            };
            if i == at {
                assert(u[j] == m[b]);
                if b > at {
                    lemma_lt_transitive(x.0, m[at].0, m[b].0);
                }
            } else if j == at {
                assert(u[i] == m[a]);
            } else {
                assert(u[i] == m[a] && u[j] == m[b]);
            }
        }
        assert forall|i: int| 0 <= i < m.len() implies (#[trigger] m[i]).0 != x.0 by {
            if i < at {
                lemma_lt_irreflexive(x.0);
            } else if i > at {
                lemma_lt_transitive(x.0, m[at].0, m[i].0);
                lemma_lt_irreflexive(x.0);
            }
        }
        assert forall|a: AttrView| #[trigger] u.contains(a) <==> last_value(all, a.0) == Some(a.1) by {
            assert(m.contains(a) <==> last_value(front, a.0) == Some(a.1));
            if u.contains(a) {
                let i = choose|i: int| 0 <= i < u.len() && u[i] == a;
                if i != at {
                    let k = if i < at {
                        i
                    } else {
                        i - 1
                    };
                    assert(m[k] == a);
                }
            }
            if last_value(all, a.0) == Some(a.1) {
                if a.0 == x.0 {
                    assert(u[at] == a);
                } else {
                    let i = choose|i: int| 0 <= i < m.len() && m[i] == a;
                    assert(u[if i < at {
                        i
                    } else {
                        i + 1
                    }] == a);
                }
            }
        }
    }
}

proof fn lemma_names_differ(m: Seq<AttrView>, attrs: Seq<AttrView>, i: int, j: int)
    requires
        is_by_name(m, attrs),
        0 <= i < m.len(),
        0 <= j < m.len(),
        i != j,
    ensures
        m[i].0 != m[j].0,
{
    lemma_lt_irreflexive(m[i].0);
    if i < j {
        assert(text_lt(m[i].0, m[j].0));
    } else {
        assert(text_lt(m[j].0, m[i].0));
    }
}

/// The attributes at these places.
pub open spec fn attrs_at(attrs: Seq<AttrView>, places: Seq<usize>) -> Seq<AttrView> {
    places.map_values(|i: usize| attrs[i as int])
}

/// Where the attributes stand, in the order of their names, each name once.
fn order_by_name(attrs: &Vec<(String, CapValue)>) -> (places: Vec<usize>)
    ensures
        forall|i: int| 0 <= i < places@.len() ==> (#[trigger] places@[i]) < attrs@.len(),
        attrs_at(attr_views(attrs@), places@) == by_name(attr_views(attrs@)),
{
    let ghost w = attr_views(attrs@);
    let mut places: Vec<usize> = Vec::new();
    let mut i: usize = 0;
    proof {
        assert(w.take(0) =~= Seq::empty());
        assert(attrs_at(w, places@) =~= Seq::empty());
        assert(is_by_name(attrs_at(w, places@), w.take(0)));
    }
    while i < attrs.len()
        invariant
            i <= attrs.len(),
            w == attr_views(attrs@),
            forall|k: int| 0 <= k < places@.len() ==> (#[trigger] places@[k]) < attrs@.len(),
            is_by_name(attrs_at(w, places@), w.take(i as int)),
        decreases attrs.len() - i,
    {
        let ghost m = attrs_at(w, places@);
        let ghost before = places@;
        let mut at: usize = 0;
        while at < places.len() && text_before(attrs[places[at]].0.as_str(), attrs[i].0.as_str())
            invariant
                at <= places.len(),
                i < attrs.len(),
                w == attr_views(attrs@),
                m == attrs_at(w, places@),
                forall|k: int| 0 <= k < places@.len() ==> (#[trigger] places@[k]) < attrs@.len(),
                forall|k: int| 0 <= k < at ==> text_lt((#[trigger] m[k]).0, w[i as int].0),
            decreases places.len() - at,
        {
            assert(m[at as int].0 == attrs@[places@[at as int] as int].0@);
            at += 1;
        }
        proof {
            if at < places@.len() {
                assert(m[at as int].0 == attrs@[places@[at as int] as int].0@);
            }
            lemma_put(m, w.take(i as int), w[i as int], at as int);
            assert(w.take(i + 1) =~= w.take(i as int).push(w[i as int]));
        }
        if at < places.len() && same_text(attrs[places[at]].0.as_str(), attrs[i].0.as_str()) {
            places.set(at, i);
            assert(attrs_at(w, places@) =~= m.update(at as int, w[i as int]));
        } else {
            places.insert(at, i);
            assert(attrs_at(w, places@) =~= m.insert(at as int, w[i as int]));
            assert forall|k: int| 0 <= k < places@.len() implies (#[trigger] places@[k]) < attrs@.len() by {
                if k < at {
                    assert(places@[k] == before[k]);
                } else if k > at {
                    assert(places@[k] == before[k - 1]);
                }
            }
        }
        i += 1;
    }
    proof {
        assert(w.take(i as int) =~= w);
        lemma_by_name(attrs_at(w, places@), w);
    }
    places
}

/// The attributes of a capability inside an answer, in the order of their
/// names, each name once.
pub open spec fn attributes_text(attrs: Seq<AttrView>, floats: Seq<(u64, String)>) -> Seq<char> {
    "{"@ + comma_joined(by_name(attrs).map_values(|a: AttrView| member_text(a, floats))) + "}"@
}

fn write_attributes(attrs: &Vec<(String, CapValue)>, floats: &Vec<(u64, String)>) -> (s: String)
    ensures
        s@ == attributes_text(attr_views(attrs@), floats@),
{
    let places = order_by_name(attrs);
    let ghost m = by_name(attr_views(attrs@));
    let mut out: Vec<String> = Vec::new();
    let mut i: usize = 0;
    while i < places.len()
        invariant
            i <= places.len(),
            out@.len() == i,
            m == attrs_at(attr_views(attrs@), places@),
            forall|k: int| 0 <= k < places@.len() ==> (#[trigger] places@[k]) < attrs@.len(),
            forall|k: int| 0 <= k < i ==> (#[trigger] out@[k])@ == member_text(m[k], floats@),
        decreases places.len() - i,
    {
        let at: usize = places[i];
        assert(m[i as int] == (attrs@[at as int].0@, attrs@[at as int].1@));
        out.push(
            join3(
                json_quote(attrs[at].0.as_str()).as_str(),
                ":",
                capvalue_to_json(&attrs[at].1, floats).as_str(),
            ),
        );
        i += 1;
    }
    assert(views(out@) =~= m.map_values(|a: AttrView| member_text(a, floats@)));
    join3("{", join_commas(&out).as_str(), "}")
}

/// The attributes of an answer stand in the order of their names, each name
/// once, with the value that was given last.
pub proof fn law_attributes_by_name(attrs: Seq<AttrView>)
    ensures
        is_by_name(by_name(attrs), attrs),
    decreases attrs.len(),
{
    if attrs.len() == 0 {
        assert(is_by_name(Seq::<AttrView>::empty(), attrs));
    } else {
        let front = attrs.drop_last();
        let x = attrs.last();
        law_attributes_by_name(front);
        let m = by_name(front);
        lemma_place(m, x.0, m.len() as int);
        let at = choose|at: int| #[trigger] is_place(m, x.0, at);
        lemma_put(m, front, x, at);
        assert(front.push(x) =~= attrs);
    }
}

/// Whether `name` belongs at `at`.
pub open spec fn is_place(m: Seq<AttrView>, name: Seq<char>, at: int) -> bool {
    &&& 0 <= at <= m.len()
    &&& forall|i: int| 0 <= i < at ==> text_lt((#[trigger] m[i]).0, name)
    &&& at < m.len() ==> !text_lt(m[at].0, name)
}

proof fn lemma_place(m: Seq<AttrView>, name: Seq<char>, n: int)
    requires
        0 <= n <= m.len(),
        forall|i: int, j: int| 0 <= i < j < m.len() ==> text_lt((#[trigger] m[i]).0, (#[trigger] m[j]).0),
        n < m.len() ==> !text_lt(m[n].0, name),
    ensures
        exists|at: int| #[trigger] is_place(m, name, at),
    decreases n,
{
    if n == 0 {
        assert(is_place(m, name, 0));
    } else if text_lt(m[n - 1].0, name) {
        assert forall|i: int| 0 <= i < n implies text_lt((#[trigger] m[i]).0, name) by {
            if i < n - 1 {
                lemma_lt_transitive(m[i].0, m[n - 1].0, name);
            }
        }
        assert(is_place(m, name, n));
    } else {
        lemma_place(m, name, n - 1);
    }
}

/// A provider inside an answer.
pub open spec fn provider_text(p: (NodeView, CapView), floats: Seq<(u64, String)>) -> Seq<char> {
    "{\"attributes\":"@ + attributes_text(p.1.attributes, floats) + ",\"name\":"@ + json_string(p.1.name)
        + ",\"node_id\":"@ + json_string(node_text(p.0)) + ",\"ns\":"@ + json_string(p.1.namespace) + "}"@
}

fn write_provider(p: &(NodeId, Capability), floats: &Vec<(u64, String)>) -> (s: String)
    ensures
        s@ == provider_text((p.0@, p.1@), floats@),
{
    let a = join3("{\"attributes\":", write_attributes(&p.1.attributes, floats).as_str(), ",\"name\":");
    let b = join3(a.as_str(), json_quote(p.1.name.as_str()).as_str(), ",\"node_id\":");
    let c = join3(b.as_str(), json_quote(p.0.to_text().as_str()).as_str(), ",\"ns\":");
    join3(c.as_str(), json_quote(p.1.namespace.as_str()).as_str(), "}")
}

/// Answers a request for the providers of a capability, which are those in
/// `found`.
pub fn report_providers(found: &Vec<(NodeId, Capability)>, floats: &Vec<(u64, String)>) -> (r: GatewayReply)
    ensures
        r@ == good(
            "{\"providers\":["@ + comma_joined(
                provider_views(found@).map_values(|p: (NodeView, CapView)| provider_text(p, floats@)),
            ) + "]}"@,
        ),
{
    let mut out: Vec<String> = Vec::new();
    let mut i: usize = 0;
    while i < found.len()
        invariant
            i <= found.len(),
            out@.len() == i,
            forall|k: int|
                0 <= k < i ==> (#[trigger] out@[k])@ == provider_text((found@[k].0@, found@[k].1@), floats@),
        decreases found.len() - i,
    {
        out.push(write_provider(&found[i], floats));
        i += 1;
    }
    assert(views(out@) =~= provider_views(found@).map_values(
        |p: (NodeView, CapView)| provider_text(p, floats@),
    ));
    reply(join3("{\"providers\":[", join_commas(&out).as_str(), "]}"))
}

// ── Prompts ──────────────────────────────────────────────────────────────────

/// A published template inside a listing; a field that it leaves out is
/// `null`.
pub open spec fn prompt_text(ns: Seq<char>, name: Seq<char>, template: Seq<u8>) -> Seq<char> {
    "{\"max_tokens\":"@ + json_or(template, "/max_tokens"@, "null"@) + ",\"metadata\":"@ + json_or(
        template,
        "/metadata"@,
        "null"@,
    ) + ",\"name\":"@ + json_string(name) + ",\"ns\":"@ + json_string(ns) + ",\"temperature\":"@ + json_or(
        template,
        "/temperature"@,
        "null"@,
    ) + "}"@
}

/// What a listing says of an entry: nothing where its value is no template.
pub open spec fn prompt_line(k: Seq<char>, v: Seq<u8>) -> Option<Seq<char>> {
    match prompt_named(k) {
        Some(p) => if is_template(v) {
            Some(prompt_text(p.0, p.1, v))
        } else {
            None
        },
        None => None,
    }
}

/// [`prompt_line`] as a reading of the table.
pub open spec fn prompt_line_reading() -> Reading<Seq<char>> {
    |k: Seq<char>, v: Seq<u8>, ts: u64| prompt_line(k, v)
}

fn write_prompt(key: &String, value: &Vec<u8>) -> (r: Option<String>)
    requires
        has_prefix(key@, PROMPTS_PREFIX@),
    ensures
        r is Some <==> prompt_line(key@, value@) is Some,
        r matches Some(s) ==> prompt_line(key@, value@) == Some(s@),
{
    let (ns, name) = match read_prompt_key(key) {
        Some(p) => p,
        None => {
            return None;
        },
    };
    if !holds_template(value) {
        return None;
    }
    let a = join3("{\"max_tokens\":", read_json_or(value, "/max_tokens", "null").as_str(), ",\"metadata\":");
    let b = join3(a.as_str(), read_json_or(value, "/metadata", "null").as_str(), ",\"name\":");
    let c = join3(b.as_str(), json_quote(name.as_str()).as_str(), ",\"ns\":");
    let d = join3(c.as_str(), json_quote(ns.as_str()).as_str(), ",\"temperature\":");
    Some(join3(d.as_str(), read_json_or(value, "/temperature", "null").as_str(), "}"))
}

impl LlmHandle {
    /// Answers a request for the published prompts, which come in no
    /// particular order.
    pub fn gw_prompts_list(&self) -> (r: GatewayReply)
        ensures
            exists|lines: Seq<Seq<char>>|
                #[trigger] lists_readings(
                    lines,
                    self.kv.table(),
                    PROMPTS_PREFIX@,
                    prompt_line_reading(),
                ) && r@ == good("["@ + comma_joined(lines) + "]"@),
    {
        let found = self.kv.scan_prefix_with_ts(PROMPTS_PREFIX);
        let ghost f = prompt_line_reading();
        let ghost mut src: Seq<int> = Seq::empty();
        let mut out: Vec<String> = Vec::new();
        let mut i: usize = 0;
        assert(views(out@) =~= Seq::empty());
        while i < found.len()
            invariant
                i <= found.len(),
                f == prompt_line_reading(),
                lists_live_ts(found@, self.kv.table(), PROMPTS_PREFIX@),
                picked(found@, i as int, src, views(out@), f),
            decreases found.len() - i,
        {
            assert(has_prefix(found@[i as int].0@, PROMPTS_PREFIX@));
            match write_prompt(&found[i].0, &found[i].1) {
                Some(s) => {
                    proof {
                        lemma_pick(found@, i as int, src, views(out@), f, s@);
                        src = src.push(i as int);
                        assert(views(out@.push(s)) =~= views(out@).push(s@));
                    }
                    out.push(s);
                },
                None => {
                    proof {
                        lemma_skip(found@, i as int, src, views(out@), f);
                    }
                },
            }
            i += 1;
        }
        proof {
            lemma_picked_all(found@, self.kv.table(), PROMPTS_PREFIX@, src, views(out@), f);
        }
        reply(join3("[", join_commas(&out).as_str(), "]"))
    }

    /// Answers a request for a prompt with its document.
    pub fn gw_prompt_get(&self, ns: &str, name: &str) -> (r: GatewayReply)
        ensures
            r@ == (match live(self.kv.table(), prompt_key_text(ns@, name@)) {
                Some(v) if is_template(v) => good(json_or(v, ""@, "null"@)),
                _ => (404u16, "not found"@),
            }),
    {
        match self.get_prompt(ns, name) {
            Some(v) => reply(read_json_or(&v, "", "null")),
            None => GatewayReply { status: 404, body: "not found".to_owned() },
        }
    }

    /// Publishes the prompt that a request hands in, if it is a template.
    pub fn gw_prompt_put(&mut self, ns: &str, name: &str, template: Vec<u8>, now_ms: u64) -> (r: GatewayReply)
        requires
            old(self).wf(),
            old(self).kv.clock < u64::MAX,
        ensures
            final(self).wf(),
            !is_template(template@) ==> *final(self) == *old(self) && r@ == failed(
                422,
                "not a prompt template"@,
            ),
            is_template(template@) ==> r@ == good("{\"ok\":true}"@) && wrote(
                old(self).kv,
                final(self).kv,
                prompt_key_text(ns@, name@),
                Some(template@),
                now_ms,
                outcome_for(old(self).kv, prompt_key_text(ns@, name@)),
            ),
            final(self).serving() == old(self).serving(),
    {
        if !holds_template(&template) {
            return fail(422, "not a prompt template");
        }
        self.update_prompt(ns, name, template, now_ms);
        reply("{\"ok\":true}".to_owned())
    }

    /// Deletes a prompt.
    pub fn gw_prompt_delete(&mut self, ns: &str, name: &str, now_ms: u64) -> (r: GatewayReply)
        requires
            old(self).wf(),
            old(self).kv.clock < u64::MAX,
        ensures
            final(self).wf(),
            wrote(
                old(self).kv,
                final(self).kv,
                prompt_key_text(ns@, name@),
                None,
                now_ms,
                outcome_for(old(self).kv, prompt_key_text(ns@, name@)),
            ),
            final(self).serving() == old(self).serving(),
            r@ == good("{\"ok\":true}"@),
    {
        self.delete_prompt(ns, name, now_ms);
        reply("{\"ok\":true}".to_owned())
    }
}

/// A whole number is written in decimal, with a minus sign before a negative one.
pub proof fn law_integers_in_decimal(n: i64)
    ensures
        n >= 0 ==> int_text(n) == dec_text(n as nat),
        n < 0 ==> int_text(n) == "-"@ + dec_text((0 - n) as nat),
{
}

/// Of an attribute that is named more than once the last value counts.
pub proof fn law_last_attribute_counts(attrs: Seq<AttrView>, name: Seq<char>, i: int)
    requires
        0 <= i < attrs.len(),
        attrs[i].0 == name,
        forall|j: int| i < j < attrs.len() ==> (#[trigger] attrs[j]).0 != name,
    ensures
        last_value(attrs, name) == Some(attrs[i].1),
    decreases attrs.len(),
{
    if i < attrs.len() - 1 {
        assert(attrs[attrs.len() - 1].0 != name);
        law_last_attribute_counts(attrs.drop_last(), name, i);
    }
}

} // verus!
