//! Who may use the gateway: tokens, the scopes that they grant, and the scope
//! that each route asks for.

use crate::config::GossipConfig;
use crate::text::{copy_texts, same_text, strip_prefix, views};
use crate::text::{behind, has_prefix};
use vstd::prelude::*;

verus! {

/// The scope that a route asks for, by its pattern and by whether the request
/// only reads. A route that is not listed is for administrators.
pub open spec fn scope_for(read: bool, path: Seq<char>) -> Seq<char> {
    if path == "/gateway/kv"@ {
        if read {
            "kv:read"@
        } else {
            "kv:write"@
        }
    } else if path == "/gateway/kv/keys"@ {
        "kv:read"@
    } else if path == "/gateway/kv/quorum"@ {
        "kv:write"@
    } else if path == "/gateway/capability/advertise"@
        || path == "/gateway/capability/{handle_id}"@ {
        "cap:write"@
    } else if path == "/gateway/capability/resolve"@
        || path == "/gateway/shard/{ns}/{name}"@ {
        "cap:read"@
    } else if path == "/gateway/signal/emit"@
        || path == "/gateway/rpc/call"@
        || path == "/gateway/rpc/respond"@
        || path == "/gateway/scatter"@
        || path == "/gateway/mailbox/deliver"@
        || path == "/gateway/shard/emit"@ {
        "mesh:write"@
    } else if path == "/gateway/signal/sse/{kind}"@
        || path == "/gateway/demand"@
        || path == "/gateway/rpc/serve/{kind}"@
        || path == "/gateway/mailbox/{kind}"@ {
        "mesh:read"@
    } else if path == "/gateway/overlay/consistent/set"@
        || path == "/gateway/overlay/lock/acquire"@
        || path == "/gateway/overlay/lock/{guard_id}"@
        || path == "/gateway/overlay/elect"@
        || path == "/gateway/overlay/log/append"@
        || path == "/gateway/overlay/log/compact"@
        || path == "/gateway/overlay/emit_reliable"@
        || path == "/gateway/consensus/cross_group_propose"@ {
        "consensus:write"@
    } else if path == "/gateway/overlay/consistent/get"@
        || path == "/gateway/overlay/log/scan"@
        || path == "/gateway/overlay/log/subscribe"@
        || path == "/gateway/overlay/log/group/subscribe"@ {
        "consensus:read"@
    } else if path == "/gateway/prompts"@ {
        "llm:read"@
    } else if path == "/gateway/prompts/{ns}/{name}"@ {
        if read {
            "llm:read"@
        } else {
            "llm:write"@
        }
    } else if path == "/gateway/llm/call"@
        || path == "/gateway/llm/stream"@ {
        "llm:invoke"@
    } else if path == "/gateway/audit"@ {
        "audit:read"@
    } else {
        "admin"@
    }
}

/// The scope that a route asks for, by its pattern and by whether the request
/// only reads. A route that is not listed is for administrators.
pub fn required_scope(read: bool, path: &str) -> (s: &'static str)
    ensures
        s@ == scope_for(read, path@),
{
    if same_text(path, "/gateway/kv") {
        if read {
            "kv:read"
        } else {
            "kv:write"
        }
    } else if same_text(path, "/gateway/kv/keys") {
        "kv:read"
    } else if same_text(path, "/gateway/kv/quorum") {
        "kv:write"
    } else if same_text(path, "/gateway/capability/advertise")
        || same_text(path, "/gateway/capability/{handle_id}") {
        "cap:write"
    } else if same_text(path, "/gateway/capability/resolve")
        || same_text(path, "/gateway/shard/{ns}/{name}") {
        "cap:read"
    } else if same_text(path, "/gateway/signal/emit")
        || same_text(path, "/gateway/rpc/call")
        || same_text(path, "/gateway/rpc/respond")
        || same_text(path, "/gateway/scatter")
        || same_text(path, "/gateway/mailbox/deliver")
        || same_text(path, "/gateway/shard/emit") {
        "mesh:write"
    } else if same_text(path, "/gateway/signal/sse/{kind}")
        || same_text(path, "/gateway/demand")
        || same_text(path, "/gateway/rpc/serve/{kind}")
        || same_text(path, "/gateway/mailbox/{kind}") {
        "mesh:read"
    } else if same_text(path, "/gateway/overlay/consistent/set")
        || same_text(path, "/gateway/overlay/lock/acquire")
        || same_text(path, "/gateway/overlay/lock/{guard_id}")
        || same_text(path, "/gateway/overlay/elect")
        || same_text(path, "/gateway/overlay/log/append")
        || same_text(path, "/gateway/overlay/log/compact")
        || same_text(path, "/gateway/overlay/emit_reliable")
        || same_text(path, "/gateway/consensus/cross_group_propose") {
        "consensus:write"
    } else if same_text(path, "/gateway/overlay/consistent/get")
        || same_text(path, "/gateway/overlay/log/scan")
        || same_text(path, "/gateway/overlay/log/subscribe")
        || same_text(path, "/gateway/overlay/log/group/subscribe") {
        "consensus:read"
    } else if same_text(path, "/gateway/prompts") {
        "llm:read"
    } else if same_text(path, "/gateway/prompts/{ns}/{name}") {
        if read {
            "llm:read"
        } else {
            "llm:write"
        }
    } else if same_text(path, "/gateway/llm/call")
        || same_text(path, "/gateway/llm/stream") {
        "llm:invoke"
    } else if same_text(path, "/gateway/audit") {
        "audit:read"
    } else {
        "admin"
    }
}

/// Whether the scopes grant `required`.
pub open spec fn admits_scope(scopes: Seq<Seq<char>>, required: Seq<char>) -> bool {
    scopes.contains("*"@) || scopes.contains(required)
}

/// Whether the scopes grant `required`: they name it, or everything.
pub fn scope_admits(scopes: &[String], required: &str) -> (r: bool)
    ensures
        r == admits_scope(views(scopes@), required@),
{
    let mut i: usize = 0;
    while i < scopes.len()
        invariant
            i <= scopes@.len(),
            forall|k: int| 0 <= k < i ==> views(scopes@)[k] != "*"@ && views(scopes@)[k] != required@,
        decreases scopes@.len() - i,
    {
        assert(views(scopes@)[i as int] == scopes@[i as int]@);
        if same_text(scopes[i].as_str(), "*") || same_text(scopes[i].as_str(), required) {
            return true;
        }
        i += 1;
    }
    false
}

/// The scopes that a token grants, `None` where it is not known. The first
/// scoped token that matches counts; the general token grants everything.
pub open spec fn token_scopes(cfg: GossipConfig, token: Seq<char>) -> Option<Seq<Seq<char>>> {
    if cfg.gateway_auth_token is Some && cfg.gateway_auth_token->0@ == token {
        Some(seq!["*"@])
    } else {
        scoped_grant(cfg.gateway_scoped_tokens@, token)
    }
}

/// The scopes of the first token in the list that matches.
pub open spec fn scoped_grant(v: Seq<crate::config::GatewayToken>, token: Seq<char>) -> Option<Seq<Seq<char>>>
    decreases v.len(),
{
    if v.len() == 0 {
        None
    } else if v[0].token@ == token {
        Some(views(v[0].scopes@))
    } else {
        scoped_grant(v.drop_first(), token)
    }
}

/// The scopes that a token grants, `None` where it is not known.
pub fn resolve_token_scopes(cfg: &GossipConfig, presented: &str) -> (r: Option<Vec<String>>)
    ensures
        r is Some <==> token_scopes(*cfg, presented@) is Some,
        r matches Some(v) ==> token_scopes(*cfg, presented@) == Some(views(v@)),
{
    match &cfg.gateway_auth_token {
        Some(token) => {
            if same_text(token.as_str(), presented) {
                let mut all: Vec<String> = Vec::new();
                all.push("*".to_owned());
                assert(views(all@) =~= seq!["*"@]);
                return Some(all);
            }
        },
        None => {},
    }
    let ghost v = cfg.gateway_scoped_tokens@;
    let mut i: usize = 0;
    assert(v.skip(0) =~= v);
    while i < cfg.gateway_scoped_tokens.len()
        invariant
            i <= cfg.gateway_scoped_tokens@.len(),
            v == cfg.gateway_scoped_tokens@,
            !(cfg.gateway_auth_token is Some && cfg.gateway_auth_token->0@ == presented@),
            scoped_grant(v, presented@) == scoped_grant(v.skip(i as int), presented@),
        decreases cfg.gateway_scoped_tokens@.len() - i,
    {
        assert(v.skip(i as int).drop_first() =~= v.skip(i + 1));
        if same_text(cfg.gateway_scoped_tokens[i].token.as_str(), presented) {
            return Some(copy_texts(&cfg.gateway_scoped_tokens[i].scopes));
        }
        i += 1;
    }
    None
}

/// What becomes of a request to the gateway.
pub enum GatewayDecision {
    Admit,
    /// The request does not say who it is from.
    Unauthorized,
    /// The request lacks this scope.
    Forbidden { required: String },
}

/// Whether anything is asked of a request at all.
pub open spec fn gateway_open(cfg: GossipConfig, have_oidc: bool) -> bool {
    cfg.gateway_auth_token is None && cfg.gateway_scoped_tokens@.len() == 0 && !have_oidc
}

/// The token in an `Authorization` header.
pub open spec fn bearer_token(header: Option<Seq<char>>) -> Option<Seq<char>> {
    match header {
        Some(h) => if has_prefix(h, "Bearer "@) {
            Some(behind(h, "Bearer "@))
        } else {
            None
        },
        None => None,
    }
}

/// The token in an `Authorization` header.
pub fn presented_token(header: &Option<String>) -> (r: Option<String>)
    ensures
        r is Some <==> bearer_token(header_view(*header)) is Some,
        r matches Some(t) ==> bearer_token(header_view(*header)) == Some(t@),
{
    match header {
        Some(h) => strip_prefix(h.as_str(), "Bearer "),
        None => None,
    }
}

pub open spec fn header_view(header: Option<String>) -> Option<Seq<char>> {
    match header {
        Some(h) => Some(h@),
        None => None,
    }
}

/// The scopes of a request: those that the identity provider vouches for, or
/// else those of its token.
pub open spec fn granted(
    cfg: GossipConfig,
    header: Option<Seq<char>>,
    oidc_scopes: Option<Seq<Seq<char>>>,
) -> Option<Seq<Seq<char>>> {
    match bearer_token(header) {
        Some(token) => if oidc_scopes is Some {
            oidc_scopes
        } else {
            token_scopes(cfg, token)
        },
        None => None,
    }
}

/// Decides whether a request is let through. `oidc_scopes` is what the
/// identity provider says of its token, and `path` the pattern of the route
/// that it matched.
pub fn gateway_auth(
    cfg: &GossipConfig,
    have_oidc: bool,
    header: &Option<String>,
    oidc_scopes: Option<Vec<String>>,
    read: bool,
    path: &Option<String>,
) -> (d: GatewayDecision)
    ensures
        ({
            let oidc = match oidc_scopes {
                Some(v) => Some(views(v@)),
                None => None,
            };
            let required = match path {
                Some(p) => scope_for(read, p@),
                None => "admin"@,
            };
            let scopes = granted(*cfg, header_view(*header), oidc);
            if gateway_open(*cfg, have_oidc) {
                d is Admit
            } else if scopes is None {
                d is Unauthorized
            } else if admits_scope(scopes->0, required) {
                d is Admit
            } else {
                d matches GatewayDecision::Forbidden { required: s } && s@ == required
            }
        }),
{
    if cfg.gateway_auth_token.is_none() && cfg.gateway_scoped_tokens.len() == 0 && !have_oidc {
        return GatewayDecision::Admit;
    }
    let token = match presented_token(header) {
        Some(t) => t,
        None => {
            return GatewayDecision::Unauthorized;
        },
    };
    let resolved = match oidc_scopes {
        Some(v) => Some(v),
        None => resolve_token_scopes(cfg, token.as_str()),
    };
    let scopes = match resolved {
        Some(v) => v,
        None => {
            return GatewayDecision::Unauthorized;
        },
    };
    let required = match path {
        Some(p) => required_scope(read, p.as_str()),
        None => "admin",
    };
    if scope_admits(scopes.as_slice(), required) {
        GatewayDecision::Admit
    } else {
        GatewayDecision::Forbidden { required: required.to_owned() }
    }
}

/// The general token opens every route, whatever scoped tokens there are.
pub proof fn law_general_token_is_admitted(cfg: GossipConfig, token: Seq<char>, required: Seq<char>)
    requires
        cfg.gateway_auth_token is Some,
        cfg.gateway_auth_token->0@ == token,
    ensures
        token_scopes(cfg, token) is Some,
        admits_scope(token_scopes(cfg, token)->0, required),
{
    let s = seq!["*"@];
    assert(s[0] == "*"@);
    assert(s.contains("*"@));
}

/// A route that is not listed is closed to whoever was not granted
/// administration or everything.
pub proof fn law_denied_by_default(read: bool, path: Seq<char>, scopes: Seq<Seq<char>>)
    requires
        scope_for(read, path) == "admin"@,
        !scopes.contains("admin"@),
        !scopes.contains("*"@),
    ensures
        !admits_scope(scopes, scope_for(read, path)),
{
}

/// A scoped token grants what the first entry for it says.
pub proof fn law_first_token_counts(v: Seq<crate::config::GatewayToken>, token: Seq<char>, i: int)
    requires
        0 <= i < v.len(),
        v[i].token@ == token,
        forall|j: int| 0 <= j < i ==> (#[trigger] v[j]).token@ != token,
    ensures
        scoped_grant(v, token) == Some(views(v[i].scopes@)),
    decreases v.len(),
{
    if i > 0 {
        assert(v[0].token@ != token);
        let rest = v.drop_first();
        assert(rest[i - 1] == v[i]);
        assert forall|j: int| 0 <= j < i - 1 implies (#[trigger] rest[j]).token@ != token by {
            assert(v[j + 1].token@ != token);
        }
        law_first_token_counts(rest, token, i - 1);
    }
}

/// A token that is neither the general one nor a scoped one grants nothing.
pub proof fn law_unknown_token_grants_nothing(cfg: GossipConfig, token: Seq<char>)
    requires
        cfg.gateway_auth_token is Some ==> cfg.gateway_auth_token->0@ != token,
        forall|i: int|
            0 <= i < cfg.gateway_scoped_tokens@.len() ==> (#[trigger] cfg.gateway_scoped_tokens@[i]).token@ != token,
    ensures
        token_scopes(cfg, token) is None,
{
    lemma_no_grant(cfg.gateway_scoped_tokens@, token);
}

proof fn lemma_no_grant(v: Seq<crate::config::GatewayToken>, token: Seq<char>)
    requires
        forall|i: int| 0 <= i < v.len() ==> (#[trigger] v[i]).token@ != token,
    ensures
        scoped_grant(v, token) is None,
    decreases v.len(),
{
    if v.len() > 0 {
        assert(v[0].token@ != token);
        let rest = v.drop_first();
        assert forall|i: int| 0 <= i < rest.len() implies (#[trigger] rest[i]).token@ != token by {
            assert(v[i + 1].token@ != token);
        }
        lemma_no_grant(rest, token);
    }
}

/// A scope admits what it names, `*` admits everything, and nothing else admits.
pub proof fn law_scope_admits_what_it_names(scopes: Seq<Seq<char>>, required: Seq<char>)
    ensures
        admits_scope(scopes, required) <==> exists|i: int|
            0 <= i < scopes.len() && ((#[trigger] scopes[i]) == required || scopes[i] == "*"@),
{
}

/// The gateway is open exactly if nobody set a token and there is no provider of
/// identities.
pub proof fn law_gateway_is_open_without_credentials(cfg: GossipConfig, have_oidc: bool)
    ensures
        gateway_open(cfg, have_oidc) <==> cfg.gateway_auth_token is None && cfg.gateway_scoped_tokens@
            =~= Seq::empty() && !have_oidc,
{
}

/// What is behind `Bearer ` is the token; any other header grants nothing. What the
/// provider of identities says goes before what the token would grant.
pub proof fn law_bearer_grants(
    cfg: GossipConfig,
    token: Seq<char>,
    other: Seq<char>,
    oidc: Seq<Seq<char>>,
)
    ensures
        granted(cfg, Some("Bearer "@ + token), None) == token_scopes(cfg, token),
        granted(cfg, Some("Bearer "@ + token), Some(oidc)) == Some(oidc),
        granted(cfg, None, Some(oidc)) is None,
        granted(cfg, None, None) is None,
        !has_prefix(other, "Bearer "@) ==> granted(cfg, Some(other), Some(oidc)) is None,
        !has_prefix(other, "Bearer "@) ==> granted(cfg, Some(other), None) is None,
{
    let h = "Bearer "@ + token;
    assert(h.take("Bearer "@.len() as int) =~= "Bearer "@);
    assert(behind(h, "Bearer "@) =~= token);
}

/// What a scope opens: no scope opens a route that is not one of its own, and only
/// administration opens a route that is not listed.
pub proof fn law_scope_opens_its_own_routes(read: bool, path: Seq<char>)
    ensures
        ({
            let s = scope_for(read, path);
            &&& s == "kv:read"@ ==> (read && path == "/gateway/kv"@) || path == "/gateway/kv/keys"@
            &&& s == "kv:write"@ ==> (!read && path == "/gateway/kv"@) || path == "/gateway/kv/quorum"@
            &&& s == "cap:read"@ ==> path == "/gateway/capability/resolve"@ || path == "/gateway/shard/{ns}/{name}"@
            &&& s == "cap:write"@ ==> path == "/gateway/capability/advertise"@ || path
                == "/gateway/capability/{handle_id}"@
            &&& s == "mesh:read"@ ==> path == "/gateway/signal/sse/{kind}"@ || path == "/gateway/demand"@ || path
                == "/gateway/rpc/serve/{kind}"@ || path == "/gateway/mailbox/{kind}"@
            &&& s == "mesh:write"@ ==> path == "/gateway/signal/emit"@ || path == "/gateway/rpc/call"@ || path
                == "/gateway/rpc/respond"@ || path == "/gateway/scatter"@ || path == "/gateway/mailbox/deliver"@ || path
                == "/gateway/shard/emit"@
            &&& s == "consensus:read"@ ==> path == "/gateway/overlay/consistent/get"@ || path
                == "/gateway/overlay/log/scan"@ || path == "/gateway/overlay/log/subscribe"@ || path
                == "/gateway/overlay/log/group/subscribe"@
            &&& s == "consensus:write"@ ==> path == "/gateway/overlay/consistent/set"@ || path
                == "/gateway/overlay/lock/acquire"@ || path == "/gateway/overlay/lock/{guard_id}"@ || path
                == "/gateway/overlay/elect"@ || path == "/gateway/overlay/log/append"@ || path
                == "/gateway/overlay/log/compact"@ || path == "/gateway/overlay/emit_reliable"@ || path
                == "/gateway/consensus/cross_group_propose"@
            &&& s == "llm:read"@ ==> path == "/gateway/prompts"@ || (read && path == "/gateway/prompts/{ns}/{name}"@)
            &&& s == "llm:write"@ ==> !read && path == "/gateway/prompts/{ns}/{name}"@
            &&& s == "llm:invoke"@ ==> path == "/gateway/llm/call"@ || path == "/gateway/llm/stream"@
            &&& s == "audit:read"@ ==> path == "/gateway/audit"@
            &&& s == "admin"@ ==> path != "/gateway/kv"@ && path != "/gateway/kv/keys"@ && path
                != "/gateway/kv/quorum"@ && path != "/gateway/capability/resolve"@ && path
                != "/gateway/capability/advertise"@ && path != "/gateway/signal/emit"@ && path != "/gateway/rpc/call"@
                && path != "/gateway/scatter"@ && path != "/gateway/demand"@ && path
                != "/gateway/overlay/consistent/set"@ && path != "/gateway/overlay/consistent/get"@ && path
                != "/gateway/overlay/elect"@ && path != "/gateway/overlay/log/append"@ && path
                != "/gateway/overlay/log/scan"@ && path != "/gateway/prompts"@ && path != "/gateway/llm/call"@ && path
                != "/gateway/llm/stream"@ && path != "/gateway/audit"@
        }),
{
    reveal_strlit("kv:read");
    reveal_strlit("kv:write");
    reveal_strlit("cap:read");
    reveal_strlit("cap:write");
    reveal_strlit("mesh:read");
    reveal_strlit("mesh:write");
    reveal_strlit("consensus:read");
    reveal_strlit("consensus:write");
    reveal_strlit("llm:read");
    reveal_strlit("llm:write");
    reveal_strlit("llm:invoke");
    reveal_strlit("audit:read");
    reveal_strlit("admin");
    assert("admin"@.len() == 5 && "kv:read"@.len() == 7);
    assert("kv:write"@.len() == 8 && "cap:read"@.len() == 8 && "llm:read"@.len() == 8);
    assert("cap:write"@.len() == 9 && "mesh:read"@.len() == 9 && "llm:write"@.len() == 9);
    assert("mesh:write"@.len() == 10 && "llm:invoke"@.len() == 10 && "audit:read"@.len() == 10);
    assert("consensus:read"@.len() == 14 && "consensus:write"@.len() == 15);
    assert("kv:write"@[0] == 'k' && "cap:read"@[0] == 'c' && "llm:read"@[0] == 'l');
    assert("cap:write"@[0] == 'c' && "mesh:read"@[0] == 'm' && "llm:write"@[0] == 'l');
    assert("mesh:write"@[0] == 'm' && "llm:invoke"@[0] == 'l' && "audit:read"@[0] == 'a');
}

} // verus!
