//! Identity of a mesh node: a host and a port, written `host:port`.

use crate::text::{
    dec_number, dec_string, dec_text, has_char, join3, parse_u16, parse_u16_spec, rsplit_once,
    same_text, unsigned_digits,
};
use crate::text::lemma_dec_round_trip;
use vstd::prelude::*;

verus! {

/// A node's address. The host is not empty and holds no key separator.
#[derive(Debug, Clone, PartialEq, Eq)]
pub struct NodeId {
    pub host: String,
    pub port: u16,
}

/// The model of a [`NodeId`].
#[verifier::ext_equal]
pub struct NodeView {
    pub host: Seq<char>,
    pub port: u16,
}

/// Why a text is no node id.
#[derive(Debug, Clone, Copy, PartialEq, Eq, Structural)]
pub enum NodeIdError {
    /// The host is empty or holds a `/`.
    InvalidHost,
    /// The text holds no `:` with a port behind it.
    InvalidPort,
}

pub open spec fn valid_host(host: Seq<char>) -> bool {
    host.len() > 0 && !host.contains('/')
}

/// `host:port`.
pub open spec fn node_text(n: NodeView) -> Seq<char> {
    n.host + seq![':'] + dec_text(n.port as nat)
}

/// The node id that `s` denotes: everything before its last `:` is the host,
/// what follows is the port.
pub open spec fn denotes(s: Seq<char>, n: NodeView) -> bool {
    exists|p: Seq<char>|
        s == #[trigger] (n.host + seq![':'] + p) && !p.contains(':') && valid_host(n.host)
            && parse_u16_spec(p) == Some(n.port)
}

impl View for NodeId {
    type V = NodeView;

    open spec fn view(&self) -> NodeView {
        NodeView { host: self.host@, port: self.port }
    }
}

impl NodeId {
    pub open spec fn wf(&self) -> bool {
        valid_host(self.host@)
    }

    /// A node id from its parts.
    pub fn new(host: &str, port: u16) -> (r: Result<NodeId, NodeIdError>)
        ensures
            valid_host(host@) ==> r is Ok && r->Ok_0@ == (NodeView { host: host@, port }),
            !valid_host(host@) ==> r == Err::<NodeId, NodeIdError>(NodeIdError::InvalidHost),
    {
        if host.is_empty() || has_char(host, '/') {
            return Err(NodeIdError::InvalidHost);
        }
        Ok(NodeId { host: host.to_owned(), port })
    }

    /// `host:port`.
    pub fn to_text(&self) -> (s: String)
        ensures
            s@ == node_text(self@),
    {
        let mut colon = String::new();
        colon.push(':');
        assert(colon@ =~= seq![':']);
        join3(self.host.as_str(), colon.as_str(), dec_string(self.port as u64).as_str())
    }

    /// Reads `host:port`.
    pub fn parse(s: &str) -> (r: Result<NodeId, NodeIdError>)
        ensures
            r matches Ok(n) ==> denotes(s@, n@) && n.wf(),
            r is Err ==> forall|n: NodeView| !denotes(s@, n),
            r == Err::<NodeId, NodeIdError>(NodeIdError::InvalidPort) <==> forall|h: Seq<char>, p: Seq<char>|
                s@ == #[trigger] (h + seq![':'] + p) && !p.contains(':') ==> parse_u16_spec(p)
                    is None,
    {
        match rsplit_once(s, ':') {
            None => {
                assert forall|h: Seq<char>, p: Seq<char>| s@ != #[trigger] (h + seq![':'] + p) by {
                    if s@ == h + seq![':'] + p {
                        assert(s@[h.len() as int] == ':');
                    }
                }
                Err(NodeIdError::InvalidPort)
            },
            Some((host, port)) => {
                proof {
                    assert forall|h: Seq<char>, p: Seq<char>|
                        s@ == #[trigger] (h + seq![':'] + p) && !p.contains(':') implies h == host@
                        && p == port@ by {
                        lemma_last_split_unique(h, p, host@, port@);
                    }
                }
                match parse_u16(port.as_str()) {
                    None => {
                        Err(NodeIdError::InvalidPort)
                    },
                    Some(v) => {
                        assert(s@ == host@ + seq![':'] + port@ && !port@.contains(':'));
                        match NodeId::new(host.as_str(), v) {
                            Ok(n) => {
                                assert(s@ == n@.host + seq![':'] + port@);
                                assert(denotes(s@, n@));
                                Ok(n)
                            },
                            Err(e) => {
                                Err(e)
                            },
                        }
                    },
                }
            },
        }
    }

    /// Whether two ids name the same node.
    pub fn same(&self, other: &NodeId) -> (r: bool)
        ensures
            r == (self@ == other@),
    {
        self.port == other.port && same_text(self.host.as_str(), other.host.as_str())
    }

    /// A copy of the id.
    pub fn copy(&self) -> (r: NodeId)
        ensures
            r@ == self@,
    {
        NodeId { host: self.host.clone(), port: self.port }
    }
}

/// Views of a list of ids.
pub open spec fn node_views(v: Seq<NodeId>) -> Seq<NodeView> {
    v.map_values(|n: NodeId| n@)
}

/// Whether `n` is in `v`.
pub fn contains_node(v: &Vec<NodeId>, n: &NodeId) -> (r: bool)
    ensures
        r == node_views(v@).contains(n@),
{
    let mut i: usize = 0;
    while i < v.len()
        invariant
            i <= v.len(),
            forall|k: int| 0 <= k < i ==> v@[k]@ != n@,
        decreases v.len() - i,
    {
        if v[i].same(n) {
            assert(node_views(v@)[i as int] == n@);
            return true;
        }
        i += 1;
    }
    assert forall|k: int| 0 <= k < node_views(v@).len() implies node_views(v@)[k] != n@ by {
        assert(node_views(v@)[k] == v@[k]@);
    }
    false
}

/// A copy of a list of ids.
pub fn copy_nodes(v: &Vec<NodeId>) -> (out: Vec<NodeId>)
    ensures
        node_views(out@) == node_views(v@),
{
    let mut out: Vec<NodeId> = Vec::new();
    let mut i: usize = 0;
    while i < v.len()
        invariant
            i <= v.len(),
            out@.len() == i,
            forall|k: int| 0 <= k < i ==> out@[k]@ == v@[k]@,
        decreases v.len() - i,
    {
        out.push(v[i].copy());
        i += 1;
    }
    assert(node_views(out@) =~= node_views(v@));
    out
}

// ── Laws ─────────────────────────────────────────────────────────────────────

proof fn lemma_last_split_unique(h: Seq<char>, p: Seq<char>, a: Seq<char>, b: Seq<char>)
    requires
        h + seq![':'] + p == a + seq![':'] + b,
        !p.contains(':'),
        !b.contains(':'),
    ensures
        h == a,
        p == b,
{
    let s = h + seq![':'] + p;
    let t = a + seq![':'] + b;
    assert(s[h.len() as int] == ':');
    assert(t[a.len() as int] == ':');
    assert(s.len() == h.len() + 1 + p.len() && t.len() == a.len() + 1 + b.len());
    if h.len() < a.len() {
        assert(p[a.len() - h.len() - 1] == s[a.len() as int]);
        assert(p.contains(':'));
    }
    if a.len() < h.len() {
        assert(b[h.len() - a.len() - 1] == t[h.len() as int]);
        assert(b.contains(':'));
    }
    assert(h =~= s.take(h.len() as int));
    assert(a =~= t.take(a.len() as int));
    assert(p =~= s.skip(h.len() as int + 1));
    assert(b =~= t.skip(a.len() as int + 1));
}

/// The node that a text denotes, if there is one.
pub open spec fn denoted(s: Seq<char>) -> Option<NodeView> {
    if exists|n: NodeView| #[trigger] denotes(s, n) {
        Some(choose|n: NodeView| #[trigger] denotes(s, n))
    } else {
        None
    }
}

/// A text that denotes a node denotes that one.
pub proof fn lemma_denoted(s: Seq<char>, n: NodeView)
    requires
        denotes(s, n),
    ensures
        denoted(s) == Some(n),
{
    law_denotes_unique(s, n, denoted(s)->0);
}

/// A text denotes at most one node.
pub proof fn law_denotes_unique(s: Seq<char>, m: NodeView, n: NodeView)
    requires
        denotes(s, m),
        denotes(s, n),
    ensures
        m == n,
{
    let p = choose|p: Seq<char>|
        s == #[trigger] (m.host + seq![':'] + p) && !p.contains(':') && valid_host(m.host)
            && parse_u16_spec(p) == Some(m.port);
    let q = choose|q: Seq<char>|
        s == #[trigger] (n.host + seq![':'] + q) && !q.contains(':') && valid_host(n.host)
            && parse_u16_spec(q) == Some(n.port);
    lemma_last_split_unique(m.host, p, n.host, q);
    assert(m =~= n);
}

/// Writing a node id and reading it back gives the same id.
pub proof fn law_node_text_round_trip(n: NodeView)
    requires
        valid_host(n.host),
    ensures
        denotes(node_text(n), n),
{
    let p = dec_text(n.port as nat);
    lemma_dec_round_trip(n.port as nat);
    assert('0' <= p[0] <= '9');
    assert(unsigned_digits(p) == p);
    assert(dec_number(p) == Some(n.port as int));
    assert forall|k: int| 0 <= k < p.len() implies p[k] != ':' by {
        assert('0' <= p[k] <= '9');
    }
    assert(node_text(n) == n.host + seq![':'] + p);
}

/// Different nodes have different texts.
pub proof fn law_node_text_injective(m: NodeView, n: NodeView)
    requires
        valid_host(m.host),
        valid_host(n.host),
        node_text(m) == node_text(n),
    ensures
        m == n,
{
    law_node_text_round_trip(m);
    law_node_text_round_trip(n);
    law_denotes_unique(node_text(m), m, n);
}

/// A node's text holds no key separator.
pub proof fn law_node_text_no_slash(n: NodeView)
    requires
        valid_host(n.host),
    ensures
        !node_text(n).contains('/'),
        node_text(n).len() > 0,
{
    let p = dec_text(n.port as nat);
    lemma_dec_round_trip(n.port as nat);
    let s = node_text(n);
    assert forall|k: int| 0 <= k < s.len() implies s[k] != '/' by {
        if k < n.host.len() {
            assert(s[k] == n.host[k]);
            assert(n.host.contains(n.host[k]));
        } else if k > n.host.len() {
            assert(s[k] == p[k - n.host.len() - 1]);
            assert('0' <= p[k - n.host.len() - 1] <= '9');
        }
    }
}

/// What stands before the last colon is the host, which is not empty and holds no slash;
/// what stands behind it is the port.
pub proof fn law_last_colon_parts_host_and_port(s: Seq<char>, n: NodeView)
    requires
        denotes(s, n),
    ensures
        n.host.len() > 0,
        !n.host.contains('/'),
        s.len() > n.host.len(),
        s[n.host.len() as int] == ':',
        s.take(n.host.len() as int) == n.host,
        !s.skip(n.host.len() as int + 1).contains(':'),
        parse_u16_spec(s.skip(n.host.len() as int + 1)) == Some(n.port),
{
    let p = choose|p: Seq<char>|
        s == #[trigger] (n.host + seq![':'] + p) && !p.contains(':') && valid_host(n.host) && parse_u16_spec(p)
            == Some(n.port);
    assert(s.take(n.host.len() as int) =~= n.host);
    assert(s.skip(n.host.len() as int + 1) =~= p);
}

} // verus!
