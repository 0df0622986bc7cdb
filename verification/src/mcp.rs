//! The bridge to the Model Context Protocol: tools are entries
//! `tools/{name}/{node}` of the table, calls travel as requests to the node
//! that provides the tool.

use crate::evidence::{
    behind_leading_u64, frame_with_nonce, leading_u64, read_leading_u64, with_leading_u64,
};
use crate::json::{
    comma_joined, is_document, is_json, items_at, join_commas, json_at, json_error, json_fault, json_or,
    json_quote, json_string, json_value_at, read_items, read_json_or, read_text, read_text_or_empty, rpc_error, rpc_error_json, rpc_result, rpc_result_json,
    text_at, text_or_empty, INTERNAL_ERROR, INVALID_PARAMS, METHOD_NOT_FOUND, PARSE_ERROR, SERVER_ERROR,
};
use crate::kv::{outcome_for, packed, wrote, KvHandle};
use crate::log::deleted_all;
use crate::mesh::{emitted, MeshHandle};
use crate::node_id::{denotes, node_text, NodeId, NodeView};
use crate::scan::lists_live_ts;
use crate::store::{live, Table};
use crate::text::{
    behind, contains_text, copy_bytes, dec_string, dec_text, has_prefix, join2, join3, lemma_first_slash,
    same_text, split_once, strip_prefix, views,
};
use crate::wire::{ScopeView, SignalScope};
use vstd::prelude::*;
use vstd::string::StrSliceExecFns;
use vstd::utf8::encode_utf8;

verus! {

/// The kind of the signals that carry a tool call.
pub const MCP_INVOKE: &'static str = "mcp.invoke";

/// The kind of the signals that carry the reply to a request.
pub const RPC_RESULT: &'static str = "rpc.result";

/// Prefix of the tools.
pub const TOOLS_PREFIX: &'static str = "tools/";

/// The only way in which a request fails.
#[derive(Debug, Clone, Copy, PartialEq, Eq, Structural)]
pub enum RpcError {
    /// No reply came in time.
    Timeout,
}

/// Why an operation of the bridge failed.
#[derive(Debug)]
pub enum McpError {
    /// The request to the provider failed.
    Rpc(RpcError),
    /// A document could not be read or written.
    SerdeJson(String),
    /// Nobody provides the tool.
    ToolNotFound(String),
    /// The tool reported an error.
    ToolError(String),
    /// The remote server could not be reached.
    Transport(String),
}

impl McpError {
    /// The error in words.
    pub fn message(&self) -> (s: String)
        ensures
            s@ == (match self {
                McpError::Rpc(_) => "rpc error: timeout"@,
                McpError::SerdeJson(m) => "json error: "@ + m@,
                McpError::ToolNotFound(m) => "tool not found: "@ + m@,
                McpError::ToolError(m) => "tool error: "@ + m@,
                McpError::Transport(m) => "transport error: "@ + m@,
            }),
    {
        match self {
            McpError::Rpc(_) => "rpc error: timeout".to_owned(),
            McpError::SerdeJson(m) => join2("json error: ", m.as_str()),
            McpError::ToolNotFound(m) => join2("tool not found: ", m.as_str()),
            McpError::ToolError(m) => join2("tool error: ", m.as_str()),
            McpError::Transport(m) => join2("transport error: ", m.as_str()),
        }
    }
}

// ── Tools in the table ───────────────────────────────────────────────────────

/// `tools/{name}/{node}`.
pub open spec fn tool_key_text(name: Seq<char>, node: NodeView) -> Seq<char> {
    TOOLS_PREFIX@ + name + "/"@ + node_text(node)
}

/// The key under which `node` offers the tool `name`.
pub fn tool_key(name: &str, node: &NodeId) -> (s: String)
    ensures
        s@ == tool_key_text(name@, node@),
{
    let head = join3(TOOLS_PREFIX, name, "/");
    join2(head.as_str(), node.to_text().as_str())
}

/// The tool that a key is about: what stands between the prefix and the next
/// slash.
pub open spec fn tool_name(k: Seq<char>) -> Option<Seq<char>> {
    let rest = behind(k, TOOLS_PREFIX@);
    match rest.index_of_first('/') {
        Some(i) => if has_prefix(k, TOOLS_PREFIX@) {
            Some(rest.take(i))
        } else {
            None
        },
        None => None,
    }
}

/// `r` names every tool in the table once, each with the value of one of its
/// entries.
pub open spec fn lists_tools(r: Seq<(Seq<char>, Seq<u8>)>, t: Table) -> bool {
    &&& forall|i: int| 0 <= i < r.len() ==> tool_entry(t, (#[trigger] r[i]).0, r[i].1)
    &&& forall|i: int, j: int| 0 <= i < j < r.len() ==> (#[trigger] r[i]).0 != (#[trigger] r[j]).0
    &&& forall|k: Seq<char>|
        #[trigger] live(t, k) is Some && tool_name(k) is Some ==> names_tool(r, tool_name(k)->0)
}

/// Some entry of the tool `name` has the value `v`.
pub open spec fn tool_entry(t: Table, name: Seq<char>, v: Seq<u8>) -> bool {
    exists|k: Seq<char>| #[trigger] live(t, k) == Some(v) && tool_name(k) == Some(name)
}

/// `r` names the tool `name`.
pub open spec fn names_tool(r: Seq<(Seq<char>, Seq<u8>)>, name: Seq<char>) -> bool {
    exists|i: int| 0 <= i < r.len() && (#[trigger] r[i]).0 == name
}

pub open spec fn tool_views(v: Seq<(String, Vec<u8>)>) -> Seq<(Seq<char>, Seq<u8>)> {
    v.map_values(|p: (String, Vec<u8>)| (p.0@, p.1@))
}

/// Some live entry says that `node` offers the tool `name`.
pub open spec fn offers_tool(t: Table, name: Seq<char>, node: NodeView) -> bool {
    exists|k: Seq<char>|
        #[trigger] live(t, k) is Some && has_prefix(k, TOOLS_PREFIX@ + name + "/"@) && denotes(
            behind(k, TOOLS_PREFIX@ + name + "/"@),
            node,
        )
}

impl KvHandle {
    /// Offers a tool: writes its schema under `tools/{name}/{node}` and
    /// returns the key.
    pub fn register_mcp_tool(&mut self, name: &str, schema: &str, now_ms: u64) -> (key: String)
        requires
            old(self).wf(),
            old(self).clock < u64::MAX,
        ensures
            key@ == tool_key_text(name@, old(self).node_id@),
            wrote(
                *old(self),
                *final(self),
                key@,
                Some(encode_utf8(schema@)),
                now_ms,
                outcome_for(*old(self), key@),
            ),
    {
        let key = tool_key(name, &self.node_id);
        let _ = self.set(key.as_str(), schema.as_bytes_vec(), now_ms);
        key
    }

    /// Takes the offer under `key` back.
    pub fn retract_mcp_tool(&mut self, key: &str, now_ms: u64) -> (queued: bool)
        requires
            old(self).wf(),
            old(self).clock < u64::MAX,
        ensures
            wrote(*old(self), *final(self), key@, None, now_ms, outcome_for(*old(self), key@)),
            queued == (outcome_for(*old(self), key@) == crate::wire::Dispatch::Queued),
    {
        self.delete(key, now_ms)
    }

    /// Every tool in the table once, with the value of one of its entries, in
    /// no particular order.
    pub fn list_tools(&self) -> (r: Vec<(String, Vec<u8>)>)
        ensures
            lists_tools(tool_views(r@), self.table()),
    {
        let found = self.scan_prefix_with_ts(TOOLS_PREFIX);
        let mut out: Vec<(String, Vec<u8>)> = Vec::new();
        let mut i: usize = 0;
        while i < found.len()
            invariant
                i <= found.len(),
                lists_live_ts(found@, self.table(), TOOLS_PREFIX@),
                forall|j: int|
                    0 <= j < out@.len() ==> tool_entry(
                        self.table(),
                        (#[trigger] tool_views(out@)[j]).0,
                        tool_views(out@)[j].1,
                    ),
                forall|j: int, k: int|
                    0 <= j < k < out@.len() ==> (#[trigger] tool_views(out@)[j]).0 != (
                    #[trigger] tool_views(out@)[k]).0,
                forall|a: int|
                    0 <= a < i && tool_name((#[trigger] found@[a]).0@) is Some ==> names_tool(
                        tool_views(out@),
                        tool_name(found@[a].0@)->0,
                    ),
            decreases found.len() - i,
        {
            let ghost was = tool_views(out@);
            let ghost k = found@[i as int].0@;
            match strip_prefix(found[i].0.as_str(), TOOLS_PREFIX) {
                None => {},
                Some(rest) => match split_once(rest.as_str(), '/') {
                    None => {
                        proof {
                            rest@.index_of_first_ensures('/');
                        }
                    },
                    Some((name, node)) => {
                        proof {
                            lemma_first_slash(name@, node@);
                            assert(tool_name(k) == Some(name@));
                        }
                        if !has_tool(&out, name.as_str()) {
                            out.push((name, copy_bytes(&found[i].1)));
                            proof {
                                let now = tool_views(out@);
                                assert(now =~= was.push((name@, found@[i as int].1@)));
                                assert(live(self.table(), k) == Some(found@[i as int].1@));
                                assert(tool_entry(self.table(), name@, found@[i as int].1@));
                                assert forall|j: int| 0 <= j < now.len() implies tool_entry(
                                    self.table(),
                                    (#[trigger] now[j]).0,
                                    now[j].1,
                                ) by {
                                    if j < was.len() {
                                        assert(now[j] == was[j]);
                                    }
                                }
                                assert forall|j: int, k: int| 0 <= j < k < now.len() implies (
                                #[trigger] now[j]).0 != (#[trigger] now[k]).0 by {
                                    assert(now[j] == was[j]);
                                    if k < was.len() {
                                        assert(now[k] == was[k]);
                                    }
                                }
                                assert forall|n: Seq<char>| #[trigger]
                                    names_tool(was, n) implies names_tool(now, n) by {
                                    let j = choose|j: int| 0 <= j < was.len() && (#[trigger] was[j]).0 == n;
                                    assert(now[j].0 == n);
                                }
                                assert(now[was.len() as int].0 == name@);
                                assert(names_tool(now, name@));
                            }
                        }
                    },
                },
            }
            i += 1;
        }
        proof {
            let r = tool_views(out@);
            assert forall|k: Seq<char>|
                #[trigger] live(self.table(), k) is Some && tool_name(k) is Some implies names_tool(
                r,
                tool_name(k)->0,
            ) by {
                let a = choose|a: int| 0 <= a < found@.len() && #[trigger] found@[a].0@ == k;
                assert(tool_name(found@[a].0@) is Some);
            }
        }
        out
    }

    /// A node that offers the tool `name`, if there is one.
    pub fn tool_provider(&self, name: &str) -> (r: Option<NodeId>)
        ensures
            r matches Some(n) ==> offers_tool(self.table(), name@, n@) && n.wf(),
            r is None ==> forall|n: NodeView| !offers_tool(self.table(), name@, n),
    {
        let prefix = join3(TOOLS_PREFIX, name, "/");
        let found = self.scan_prefix_with_ts(prefix.as_str());
        let mut i: usize = 0;
        while i < found.len()
            invariant
                i <= found.len(),
                prefix@ == TOOLS_PREFIX@ + name@ + "/"@,
                lists_live_ts(found@, self.table(), prefix@),
                forall|a: int, n: NodeView|
                    0 <= a < i ==> !#[trigger] denotes(behind(found@[a].0@, prefix@), n),
            decreases found.len() - i,
        {
            match strip_prefix(found[i].0.as_str(), prefix.as_str()) {
                None => {},
                Some(rest) => match NodeId::parse(rest.as_str()) {
                    Ok(n) => {
                        assert(live(self.table(), found@[i as int].0@) is Some);
                        return Some(n);
                    },
                    Err(_) => {},
                },
            }
            i += 1;
        }
        proof {
            assert forall|n: NodeView| !offers_tool(self.table(), name@, n) by {
                if offers_tool(self.table(), name@, n) {
                    let k = choose|k: Seq<char>|
                        #[trigger] live(self.table(), k) is Some && has_prefix(k, prefix@) && denotes(
                            behind(k, prefix@),
                            n,
                        );
                    let a = choose|a: int| 0 <= a < found@.len() && #[trigger] found@[a].0@ == k;
                    assert(!denotes(behind(found@[a].0@, prefix@), n));
                }
            }
        }
        None
    }
}

fn has_tool(v: &Vec<(String, Vec<u8>)>, name: &str) -> (r: bool)
    ensures
        r == names_tool(tool_views(v@), name@),
{
    let mut i: usize = 0;
    while i < v.len()
        invariant
            i <= v.len(),
            forall|j: int| 0 <= j < i ==> (#[trigger] tool_views(v@)[j]).0 != name@,
        decreases v.len() - i,
    {
        if same_text(v[i].0.as_str(), name) {
            assert(tool_views(v@)[i as int].0 == name@);
            return true;
        }
        assert(tool_views(v@)[i as int].0 == v@[i as int].0@);
        i += 1;
    }
    false
}

/// An offer is found by whoever looks for the tool.
pub proof fn law_registered_tool_is_offered(
    pre: KvHandle,
    post: KvHandle,
    name: Seq<char>,
    schema: Seq<u8>,
    now_ms: u64,
)
    requires
        wrote(
            pre,
            post,
            tool_key_text(name, pre.node_id@),
            Some(schema),
            now_ms,
            outcome_for(pre, tool_key_text(name, pre.node_id@)),
        ),
        pre.node_id.wf(),
    ensures
        offers_tool(post.table(), name, pre.node_id@),
        !name.contains('/') ==> tool_name(tool_key_text(name, pre.node_id@)) == Some(name),
{
    let k = tool_key_text(name, pre.node_id@);
    let p = TOOLS_PREFIX@ + name + "/"@;
    let node = node_text(pre.node_id@);
    crate::node_id::law_node_text_round_trip(pre.node_id@);
    assert(live(post.table(), k) == Some(schema));
    assert(k.take(p.len() as int) =~= p);
    assert(k.skip(p.len() as int) =~= node);
    if !name.contains('/') {
        lemma_first_slash(name, node);
        reveal_strlit("/");
        assert("/"@ =~= seq!['/']);
        assert(k.take(TOOLS_PREFIX@.len() as int) =~= TOOLS_PREFIX@);
        assert(k.skip(TOOLS_PREFIX@.len() as int) =~= name + seq!['/'] + node);
    }
}

// ── The server side ──────────────────────────────────────────────────────────

/// The protocol version that both sides speak.
pub const PROTOCOL_VERSION: &'static str = "2024-11-05";

/// The answer to `initialize`.
pub open spec fn initialize_json(id: Seq<char>) -> Seq<char> {
    rpc_result_json(
        id,
        "{\"capabilities\":{\"tools\":{}},\"protocolVersion\":\"2024-11-05\",\"serverInfo\":{\"name\":\"mycelium\",\"version\":\"0.1.0\"}}"@,
    )
}

/// The schema of a tool as JSON text, an empty object where the entry holds no
/// document.
pub open spec fn schema_json(v: Seq<u8>) -> Seq<char> {
    json_or(v, ""@, "{}"@)
}

/// What a list of tools says of one tool.
pub open spec fn tool_json(name: Seq<char>, v: Seq<u8>) -> Seq<char> {
    (match text_at(v, "/description"@) {
        Some(d) => "{\"description\":"@ + json_string(d) + ",\"inputSchema\":"@,
        None => "{\"inputSchema\":"@,
    }) + schema_json(v) + ",\"name\":"@ + json_string(name) + "}"@
}

/// What a list of tools says of each tool.
pub open spec fn tools_json(r: Seq<(Seq<char>, Seq<u8>)>) -> Seq<Seq<char>> {
    r.map_values(|t: (Seq<char>, Seq<u8>)| tool_json(t.0, t.1))
}

/// The answer to `tools/list`.
pub open spec fn tool_list_json(id: Seq<char>, r: Seq<(Seq<char>, Seq<u8>)>) -> Seq<char> {
    rpc_result_json(id, "{\"tools\":["@ + comma_joined(tools_json(r)) + "]}"@)
}

/// A call of a tool as the provider receives it.
pub open spec fn tool_call_json(id: Seq<char>, name: Seq<char>, arguments: Seq<char>) -> Seq<char> {
    "{\"id\":"@ + id + ",\"jsonrpc\":\"2.0\",\"method\":\"tools/call\",\"params\":{\"arguments\":"@
        + arguments + ",\"name\":"@ + json_string(name) + "}}"@
}

fn write_tool(name: &str, v: &Vec<u8>) -> (s: String)
    ensures
        s@ == tool_json(name@, v@),
{
    let head = match read_text(v, "/description") {
        Some(d) => join3("{\"description\":", json_quote(d.as_str()).as_str(), ",\"inputSchema\":"),
        None => "{\"inputSchema\":".to_owned(),
    };
    let schema = read_json_or(v, "", "{}");
    let a = join3(head.as_str(), schema.as_str(), ",\"name\":");
    join3(a.as_str(), json_quote(name).as_str(), "}")
}

fn write_tools(r: &Vec<(String, Vec<u8>)>) -> (s: String)
    ensures
        s@ == comma_joined(tools_json(tool_views(r@))),
{
    let mut out: Vec<String> = Vec::new();
    let mut i: usize = 0;
    while i < r.len()
        invariant
            i <= r.len(),
            out@.len() == i,
            forall|k: int| 0 <= k < i ==> (#[trigger] out@[k])@ == tool_json(r@[k].0@, r@[k].1@),
        decreases r.len() - i,
    {
        out.push(write_tool(r[i].0.as_str(), &r[i].1));
        i += 1;
    }
    assert(views(out@) =~= tools_json(tool_views(r@)));
    join_commas(&out)
}

/// Writes a call of a tool.
pub fn write_tool_call(id: &str, name: &str, arguments: &str) -> (s: String)
    ensures
        s@ == tool_call_json(id@, name@, arguments@),
{
    let a = join3(
        "{\"id\":",
        id,
        ",\"jsonrpc\":\"2.0\",\"method\":\"tools/call\",\"params\":{\"arguments\":",
    );
    let b = join3(a.as_str(), arguments, ",\"name\":");
    join3(b.as_str(), json_quote(name).as_str(), "}}")
}

/// What becomes of a request to the bridge.
pub enum McpStep {
    /// It is answered at once.
    Answer { body: String },
    /// The provider is asked; its reply goes to [`mcp_answer`].
    Ask { provider: NodeId, request: Vec<u8>, id: String },
}

/// The JSON text of the `id` of a request.
pub open spec fn request_id(body: Seq<u8>) -> Seq<char> {
    json_or(body, "/id"@, "null"@)
}

/// The method of a request.
pub open spec fn request_method(body: Seq<u8>) -> Seq<char> {
    text_or_empty(body, "/method"@)
}

/// The tool that a request names.
pub open spec fn requested_tool(body: Seq<u8>) -> Seq<char> {
    text_or_empty(body, "/params/name"@)
}

/// The JSON text of the arguments of a call.
pub open spec fn call_arguments(body: Seq<u8>) -> Seq<char> {
    json_or(body, "/params/arguments"@, "null"@)
}

/// `step` is a right answer to the request `body` at a node with the table
/// `t`.
pub open spec fn answers_request(step: McpStep, t: Table, body: Seq<u8>) -> bool {
    let id = request_id(body);
    let method = request_method(body);
    let name = requested_tool(body);
    if !is_json(body) {
        says(step, rpc_error_json("null"@, PARSE_ERROR@, "parse error"@))
    } else if method == "initialize"@ {
        says(step, initialize_json(id))
    } else if method == "tools/list"@ {
        exists|r: Seq<(Seq<char>, Seq<u8>)>|
            #[trigger] lists_tools(r, t) && says(step, tool_list_json(id, r))
    } else if method == "tools/call"@ {
        if name == ""@ {
            says(step, rpc_error_json(id, INVALID_PARAMS@, "invalid params: missing tool name"@))
        } else if exists|n: NodeView| #[trigger] offers_tool(t, name, n) {
            step matches McpStep::Ask { provider, request, id: i } && offers_tool(t, name, provider@)
                && request@ == encode_utf8(tool_call_json(id, name, call_arguments(body))) && i@ == id
        } else {
            says(step, rpc_error_json(id, METHOD_NOT_FOUND@, "tool not found: "@ + name))
        }
    } else {
        says(step, rpc_error_json(id, METHOD_NOT_FOUND@, "method not found: "@ + method))
    }
}

/// `step` answers with `body`.
pub open spec fn says(step: McpStep, body: Seq<char>) -> bool {
    step matches McpStep::Answer { body: b } && b@ == body
}

impl KvHandle {
    /// Handles a request to the bridge.
    pub fn mcp_request(&self, body: &Vec<u8>) -> (step: McpStep)
        ensures
            answers_request(step, self.table(), body@),
    {
        if !is_document(body) {
            return McpStep::Answer { body: rpc_error("null", PARSE_ERROR, "parse error") };
        }
        let id = read_json_or(body, "/id", "null");
        let method = read_text_or_empty(body, "/method");
        if same_text(method.as_str(), "initialize") {
            return McpStep::Answer {
                body: rpc_result(
                    id.as_str(),
                    "{\"capabilities\":{\"tools\":{}},\"protocolVersion\":\"2024-11-05\",\"serverInfo\":{\"name\":\"mycelium\",\"version\":\"0.1.0\"}}",
                ),
            };
        }
        if same_text(method.as_str(), "tools/list") {
            let tools = self.list_tools();
            let list = join3("{\"tools\":[", write_tools(&tools).as_str(), "]}");
            let step = McpStep::Answer { body: rpc_result(id.as_str(), list.as_str()) };
            proof {
                assert(lists_tools(tool_views(tools@), self.table()) && says(
                    step,
                    tool_list_json(request_id(body@), tool_views(tools@)),
                ));
            }
            return step;
        }
        if !same_text(method.as_str(), "tools/call") {
            let message = join2("method not found: ", method.as_str());
            return McpStep::Answer { body: rpc_error(id.as_str(), METHOD_NOT_FOUND, message.as_str()) };
        }
        let name = read_text_or_empty(body, "/params/name");
        if same_text(name.as_str(), "") {
            return McpStep::Answer {
                body: rpc_error(id.as_str(), INVALID_PARAMS, "invalid params: missing tool name"),
            };
        }
        let arguments = read_json_or(body, "/params/arguments", "null");
        match self.tool_provider(name.as_str()) {
            None => {
                let message = join2("tool not found: ", name.as_str());
                McpStep::Answer { body: rpc_error(id.as_str(), METHOD_NOT_FOUND, message.as_str()) }
            },
            Some(provider) => {
                let call = write_tool_call(id.as_str(), name.as_str(), arguments.as_str());
                assert(offers_tool(self.table(), name@, provider@));
                McpStep::Ask { provider, request: call.as_str().as_bytes_vec(), id }
            },
        }
    }
}

/// The answer to a request for which the provider was asked: its reply, an
/// error where the reply is no document, or an error where none came.
pub open spec fn answer_json(id: Seq<char>, reply: Option<Seq<u8>>) -> Seq<char> {
    match reply {
        Some(v) => json_or(v, ""@, rpc_error_json(id, INTERNAL_ERROR@, "tool returned invalid JSON"@)),
        None => rpc_error_json(id, SERVER_ERROR@, "tool invocation timed out"@),
    }
}

/// Answers a request for which the provider was asked; `None` means that the
/// provider did not reply in time.
pub fn mcp_answer(id: &str, reply: &Option<Vec<u8>>) -> (s: String)
    ensures
        s@ == answer_json(
            id@,
            match reply {
                Some(v) => Some(v@),
                None => None,
            },
        ),
{
    match reply {
        Some(v) => {
            let otherwise = rpc_error(id, INTERNAL_ERROR, "tool returned invalid JSON");
            read_json_or(v, "", otherwise.as_str())
        },
        None => rpc_error(id, SERVER_ERROR, "tool invocation timed out"),
    }
}

// ── The provider side ────────────────────────────────────────────────────────

/// A call that a provider has received.
pub struct ToolCall {
    pub nonce: u64,
    pub id: String,
    pub name: String,
    pub arguments: String,
}

/// The document behind the nonce of a request.
pub open spec fn framed(payload: Seq<u8>) -> Seq<u8> {
    payload.skip(8)
}

/// Whether a request is a call of one of these tools.
pub open spec fn calls_tool(payload: Seq<u8>, tools: Seq<Seq<char>>) -> bool {
    payload.len() >= 8 && is_json(framed(payload)) && tools.contains(requested_tool(framed(payload)))
}

/// Whether `c` says what the request `payload` says.
pub open spec fn reads_call(c: ToolCall, payload: Seq<u8>) -> bool {
    &&& leading_u64(payload) == Some(c.nonce)
    &&& c.id@ == request_id(framed(payload))
    &&& c.name@ == requested_tool(framed(payload))
    &&& c.arguments@ == call_arguments(framed(payload))
}

/// The call in a request, where it is a call of one of `tools`; other requests
/// are left to others.
pub fn tool_call(payload: &Vec<u8>, tools: &Vec<String>) -> (r: Option<ToolCall>)
    ensures
        r is Some <==> calls_tool(payload@, views(tools@)),
        r matches Some(c) ==> reads_call(c, payload@),
{
    let nonce: u64 = match read_leading_u64(payload) {
        Some(n) => n,
        None => {
            return None;
        },
    };
    let body = behind_leading_u64(payload);
    if !is_document(&body) {
        return None;
    }
    let name = read_text_or_empty(&body, "/params/name");
    if !contains_text(tools, name.as_str()) {
        return None;
    }
    Some(
        ToolCall {
            nonce,
            id: read_json_or(&body, "/id", "null"),
            name,
            arguments: read_json_or(&body, "/params/arguments", "null"),
        },
    )
}

/// What a tool answers: the JSON text of its result, or what went wrong.
pub enum ToolOutcome {
    Value { json: String },
    Failed { message: String },
}

/// The document that answers a call.
pub open spec fn tool_answer_json(id: Seq<char>, outcome: ToolOutcome) -> Seq<char> {
    match outcome {
        ToolOutcome::Value { json } => rpc_result_json(
            id,
            "{\"content\":[{\"text\":"@ + json_string(json@) + ",\"type\":\"text\"}]}"@,
        ),
        ToolOutcome::Failed { message } => rpc_error_json(id, INTERNAL_ERROR@, message@),
    }
}

/// The payload that answers a call.
pub fn tool_answer(call: &ToolCall, outcome: &ToolOutcome) -> (r: Vec<u8>)
    ensures
        r@ == with_leading_u64(call.nonce, encode_utf8(tool_answer_json(call.id@, *outcome))),
{
    let text = match outcome {
        ToolOutcome::Value { json } => {
            let content = join3(
                "{\"content\":[{\"text\":",
                json_quote(json.as_str()).as_str(),
                ",\"type\":\"text\"}]}",
            );
            rpc_result(call.id.as_str(), content.as_str())
        },
        ToolOutcome::Failed { message } => rpc_error(call.id.as_str(), INTERNAL_ERROR, message.as_str()),
    };
    frame_with_nonce(call.nonce, &text.as_str().as_bytes_vec())
}

impl MeshHandle {
    /// Sends a reply to the node that made a request, and to nobody else.
    pub fn reply(&mut self, to: &NodeId, payload: Vec<u8>, not_shed: bool, now_ms: u64) -> (queued: bool)
        requires
            old(self).wf(),
        ensures
            emitted(
                *old(self),
                *final(self),
                RPC_RESULT@,
                ScopeView::Individual(to@),
                payload@,
                not_shed,
                now_ms,
            ),
            queued == (outcome_for(old(self).kv, RPC_RESULT@) == crate::wire::Dispatch::Queued),
    {
        self.emit(RPC_RESULT, SignalScope::Individual(to.copy()), payload, not_shed, now_ms)
    }
}

/// The answer to a call carries the nonce of the call, so that the caller
/// recognises it.
pub proof fn law_answer_carries_nonce(call: ToolCall, payload: Seq<u8>, outcome: ToolOutcome)
    requires
        reads_call(call, payload),
    ensures
        leading_u64(with_leading_u64(call.nonce, encode_utf8(tool_answer_json(call.id@, outcome))))
            == leading_u64(payload),
{
    crate::evidence::law_frame_round_trip(
        call.nonce,
        encode_utf8(tool_answer_json(call.id@, outcome)),
    );
}

// ── The client side ──────────────────────────────────────────────────────────

/// The request that opens a connection to a remote server.
pub fn initialize_request() -> (s: String)
    ensures
        s@
            == "{\"id\":0,\"jsonrpc\":\"2.0\",\"method\":\"initialize\",\"params\":{\"capabilities\":{},\"clientInfo\":{\"name\":\"mycelium\",\"version\":\"0.1.0\"},\"protocolVersion\":\"2024-11-05\"}}"@,
{
    "{\"id\":0,\"jsonrpc\":\"2.0\",\"method\":\"initialize\",\"params\":{\"capabilities\":{},\"clientInfo\":{\"name\":\"mycelium\",\"version\":\"0.1.0\"},\"protocolVersion\":\"2024-11-05\"}}".to_owned()
}

/// The request for the tools of a remote server.
pub fn list_request() -> (s: String)
    ensures
        s@ == "{\"id\":1,\"jsonrpc\":\"2.0\",\"method\":\"tools/list\",\"params\":{}}"@,
{
    "{\"id\":1,\"jsonrpc\":\"2.0\",\"method\":\"tools/list\",\"params\":{}}".to_owned()
}

/// The pointer to a field of the `i`-th tool in a list.
pub open spec fn listed_pointer(i: int, field: Seq<char>) -> Seq<char> {
    "/result/tools/"@ + dec_text(i as nat) + field
}

/// A remote tool: its name and the JSON text of its schema.
pub type ToolView = (Seq<char>, Seq<char>);

/// The first `n` tools of a list, those without a name left out.
pub open spec fn listed_tools(body: Seq<u8>, n: nat) -> Seq<ToolView>
    decreases n,
{
    if n == 0 {
        Seq::empty()
    } else {
        let front = listed_tools(body, (n - 1) as nat);
        match text_at(body, listed_pointer(n - 1, "/name"@)) {
            Some(name) => front.push(
                (name, json_or(body, listed_pointer(n - 1, "/inputSchema"@), "{}"@)),
            ),
            None => front,
        }
    }
}

/// The number of tools in a list.
pub open spec fn listed_count(body: Seq<u8>) -> nat {
    match items_at(body, "/result/tools"@) {
        Some(n) => n as nat,
        None => 0,
    }
}

/// Reads the list of tools that a remote server has sent: the name and the
/// schema of each. A list that cannot be read is a failure of the transport.
pub fn read_listed_tools(body: &Vec<u8>) -> (r: Result<Vec<(String, String)>, McpError>)
    ensures
        r is Ok <==> is_json(body@),
        r matches Ok(v) ==> crate::json::pair_views(v@) == listed_tools(body@, listed_count(body@)),
        r matches Err(e) ==> (e matches McpError::Transport(m) && json_fault(body@) == Some(m@)),
{
    match json_error(body) {
        Some(m) => {
            return Err(McpError::Transport(m));
        },
        None => {},
    }
    let n: usize = match read_items(body, "/result/tools") {
        Some(n) => n,
        None => 0,
    };
    let mut out: Vec<(String, String)> = Vec::new();
    let mut i: usize = 0;
    assert(crate::json::pair_views(out@) =~= Seq::empty());
    while i < n
        invariant
            i <= n,
            n == listed_count(body@),
            crate::json::pair_views(out@) == listed_tools(body@, i as nat),
        decreases n - i,
    {
        let index = dec_string(i as u64);
        let name_at = join3("/result/tools/", index.as_str(), "/name");
        let schema_at = join3("/result/tools/", index.as_str(), "/inputSchema");
        match read_text(body, name_at.as_str()) {
            None => {},
            Some(name) => {
                let schema = read_json_or(body, schema_at.as_str(), "{}");
                let ghost was = crate::json::pair_views(out@);
                out.push((name, schema));
                assert(crate::json::pair_views(out@) =~= was.push((name@, schema@)));
            },
        }
        i += 1;
    }
    Ok(out)
}

/// `post` is `pre` after the tools were offered one after the other.
pub open spec fn offered_all(pre: KvHandle, post: KvHandle, tools: Seq<ToolView>, now_ms: u64) -> bool
    decreases tools.len(),
{
    if tools.len() == 0 {
        post == pre
    } else {
        let key = tool_key_text(tools.last().0, pre.node_id@);
        exists|mid: KvHandle|
            offered_all(pre, mid, tools.drop_last(), now_ms) && #[trigger] wrote(
                mid,
                post,
                key,
                Some(encode_utf8(tools.last().1)),
                now_ms,
                outcome_for(mid, key),
            )
    }
}

/// The keys under which a node offers these tools.
pub open spec fn tool_keys(tools: Seq<ToolView>, node: NodeView) -> Seq<Seq<char>> {
    tools.map_values(|t: ToolView| tool_key_text(t.0, node))
}

impl KvHandle {
    /// Offers the tools of a remote server under this node, and returns their
    /// keys.
    pub fn bridge_tools(&mut self, tools: &Vec<(String, String)>, now_ms: u64) -> (keys: Vec<String>)
        requires
            old(self).wf(),
            old(self).clock + tools@.len() < u64::MAX,
            packed(now_ms) + tools@.len() < u64::MAX,
        ensures
            final(self).wf(),
            offered_all(*old(self), *final(self), crate::json::pair_views(tools@), now_ms),
            views(keys@) == tool_keys(crate::json::pair_views(tools@), old(self).node_id@),
    {
        let ghost all = crate::json::pair_views(tools@);
        let ghost me = self.node_id@;
        let mut keys: Vec<String> = Vec::new();
        let mut i: usize = 0;
        proof {
            assert(all.take(0) =~= Seq::empty());
            assert(views(keys@) =~= tool_keys(all.take(0), me));
        }
        while i < tools.len()
            invariant
                i <= tools.len(),
                all == crate::json::pair_views(tools@),
                me == old(self).node_id@,
                self.wf(),
                self.node_id@ == me,
                packed(now_ms) + tools@.len() < u64::MAX,
                old(self).clock + tools@.len() < u64::MAX,
                self.clock <= old(self).clock + i || self.clock <= packed(now_ms) + i,
                offered_all(*old(self), *self, all.take(i as int), now_ms),
                views(keys@) == tool_keys(all.take(i as int), me),
            decreases tools.len() - i,
        {
            let ghost mid = *self;
            let ghost was = views(keys@);
            let key = self.register_mcp_tool(tools[i].0.as_str(), tools[i].1.as_str(), now_ms);
            let ghost next = all.take(i + 1);
            proof {
                assert(next.drop_last() =~= all.take(i as int));
                assert(next.last() == (tools@[i as int].0@, tools@[i as int].1@));
                assert(wrote(
                    mid,
                    *self,
                    key@,
                    Some(encode_utf8(next.last().1)),
                    now_ms,
                    outcome_for(mid, key@),
                ));
                assert(offered_all(*old(self), *self, next, now_ms));
            }
            keys.push(key);
            assert(views(keys@) =~= was.push(key@));
            assert(tool_keys(next, me) =~= tool_keys(all.take(i as int), me).push(key@));
            i += 1;
        }
        assert(all.take(i as int) =~= all);
        keys
    }
}

/// What a remote server made of a call that was passed on.
pub enum RemoteReply {
    /// It answered with this document.
    Document { json: String },
    /// It answered with something else.
    Unreadable { message: String },
    /// It could not be reached.
    Unreachable { message: String },
}

/// What the body of an answer holds: a document, or what is wrong with it.
pub fn read_remote(body: &Vec<u8>) -> (r: RemoteReply)
    ensures
        match json_value_at(body@, ""@) {
            Some(v) => r matches RemoteReply::Document { json } && json@ == v.json,
            None => r matches RemoteReply::Unreadable { message } && json_fault(body@) == Some(message@),
        },
{
    match (json_error(body), json_at(body, "")) {
        (Some(message), _) => RemoteReply::Unreadable { message },
        (None, Some(v)) => RemoteReply::Document { json: v.json },
        (None, None) => RemoteReply::Document { json: String::new() },
    }
}

/// The document that answers a call that was passed on.
pub open spec fn bridged_answer_json(id: Seq<char>, reply: RemoteReply) -> Seq<char> {
    match reply {
        RemoteReply::Document { json } => json@,
        RemoteReply::Unreadable { message } => rpc_error_json(id, INTERNAL_ERROR@, message@),
        RemoteReply::Unreachable { message } => rpc_error_json(id, SERVER_ERROR@, message@),
    }
}

/// The call to pass on to the remote server.
pub fn bridged_request(call: &ToolCall) -> (s: String)
    ensures
        s@ == tool_call_json(call.id@, call.name@, call.arguments@),
{
    write_tool_call(call.id.as_str(), call.name.as_str(), call.arguments.as_str())
}

/// The payload that answers a call that was passed on.
pub fn bridged_answer(call: &ToolCall, reply: &RemoteReply) -> (r: Vec<u8>)
    ensures
        r@ == with_leading_u64(call.nonce, encode_utf8(bridged_answer_json(call.id@, *reply))),
{
    let text = match reply {
        RemoteReply::Document { json } => json.clone(),
        RemoteReply::Unreadable { message } => rpc_error(call.id.as_str(), INTERNAL_ERROR, message.as_str()),
        RemoteReply::Unreachable { message } => rpc_error(call.id.as_str(), SERVER_ERROR, message.as_str()),
    };
    frame_with_nonce(call.nonce, &text.as_str().as_bytes_vec())
}

proof fn lemma_offered_entry(pre: KvHandle, post: KvHandle, tools: Seq<ToolView>, now_ms: u64, k: Seq<char>)
    requires
        offered_all(pre, post, tools, now_ms),
        !tool_keys(tools, pre.node_id@).contains(k),
    ensures
        live(post.table(), k) == live(pre.table(), k),
    decreases tools.len(),
{
    if tools.len() > 0 {
        let key = tool_key_text(tools.last().0, pre.node_id@);
        let mid = choose|mid: KvHandle|
            offered_all(pre, mid, tools.drop_last(), now_ms) && #[trigger] wrote(
                mid,
                post,
                key,
                Some(encode_utf8(tools.last().1)),
                now_ms,
                outcome_for(mid, key),
            );
        let ks = tool_keys(tools, pre.node_id@);
        let front = tool_keys(tools.drop_last(), pre.node_id@);
        assert(ks[tools.len() - 1] == key);
        assert(ks.contains(key));
        if front.contains(k) {
            let i = choose|i: int| 0 <= i < front.len() && front[i] == k;
            assert(ks[i] == k);
        }
        lemma_offered_entry(pre, mid, tools.drop_last(), now_ms, k);
    }
}

/// Bridging a remote server and taking its tools back leaves every other key
/// as it was, and the keys of the tools empty.
pub proof fn law_bridge_is_undone(
    pre: KvHandle,
    mid: KvHandle,
    post: KvHandle,
    tools: Seq<ToolView>,
    now_ms: u64,
    later_ms: u64,
)
    requires
        offered_all(pre, mid, tools, now_ms),
        deleted_all(mid, post, tool_keys(tools, pre.node_id@), later_ms),
    ensures
        forall|k: Seq<char>| #[trigger]
            live(post.table(), k) == (if tool_keys(tools, pre.node_id@).contains(k) {
                None
            } else {
                live(pre.table(), k)
            }),
{
    let ks = tool_keys(tools, pre.node_id@);
    crate::log::law_deleted_all(mid, post, ks, later_ms);
    assert forall|k: Seq<char>| #[trigger] live(post.table(), k) == (if ks.contains(k) {
        None
    } else {
        live(pre.table(), k)
    }) by {
        if !ks.contains(k) {
            lemma_offered_entry(pre, mid, tools, now_ms, k);
        }
    }
}

/// Of the tools that a server lists, those with a name are taken over, each with its
/// schema.
pub proof fn law_named_tools_are_taken_over(body: Seq<u8>, n: nat, x: ToolView)
    ensures
        listed_tools(body, n).contains(x) <==> exists|i: int|
            0 <= i < n && #[trigger] text_at(body, "/result/tools/"@ + dec_text(i as nat) + "/name"@) == Some(x.0) && x.1
                == json_or(body, "/result/tools/"@ + dec_text(i as nat) + "/inputSchema"@, "{}"@),
    decreases n,
{
    if n > 0 {
        let m = (n - 1) as nat;
        law_named_tools_are_taken_over(body, m, x);
        let front = listed_tools(body, m);
        let all = listed_tools(body, n);
        let name = text_at(body, "/result/tools/"@ + dec_text(m as int as nat) + "/name"@);
        let schema = json_or(body, "/result/tools/"@ + dec_text(m as int as nat) + "/inputSchema"@, "{}"@);
        if front.contains(x) {
            let i = choose|i: int| 0 <= i < front.len() && front[i] == x;
            assert(all[i] == x);
        }
        if name == Some(x.0) && x.1 == schema {
            assert(all[front.len() as int] == x);
        }
        if all.contains(x) && !front.contains(x) {
            let i = choose|i: int| 0 <= i < all.len() && all[i] == x;
            if i < front.len() {
                assert(front[i] == x);
            }
            assert(name == Some(x.0));
        }
        if exists|i: int|
            0 <= i < n && #[trigger] text_at(body, "/result/tools/"@ + dec_text(i as nat) + "/name"@) == Some(x.0) && x.1
                == json_or(body, "/result/tools/"@ + dec_text(i as nat) + "/inputSchema"@, "{}"@) {
            let i = choose|i: int|
                0 <= i < n && #[trigger] text_at(body, "/result/tools/"@ + dec_text(i as nat) + "/name"@) == Some(x.0)
                    && x.1 == json_or(body, "/result/tools/"@ + dec_text(i as nat) + "/inputSchema"@, "{}"@);
            if i < m {
                assert(front.contains(x));
            }
        }
    }
}

/// A call goes to a node that offers the tool, and is refused if there is none.
pub proof fn law_call_goes_to_who_offers_the_tool(step: McpStep, t: Table, body: Seq<u8>)
    requires
        answers_request(step, t, body),
        is_json(body),
        text_at(body, "/method"@) == Some("tools/call"@),
    ensures
        step matches McpStep::Ask { provider, request, id } ==> text_or_empty(body, "/params/name"@) != ""@
            && exists|s: Seq<char>|
            #[trigger] live(t, "tools/"@ + text_or_empty(body, "/params/name"@) + "/"@ + s) is Some && denotes(s, provider@),
        !(step is Ask) ==> text_or_empty(body, "/params/name"@) == ""@ || forall|n: NodeView| !#[trigger] offers_tool(
            t,
            text_or_empty(body, "/params/name"@),
            n,
        ),
{
    reveal_strlit("initialize");
    reveal_strlit("tools/list");
    reveal_strlit("tools/call");
    assert("initialize"@[0] == 'i');
    assert("tools/list"@[6] == 'l');
    assert("tools/call"@[6] == 'c');
    assert("tools/call"@[0] == 't');
    let name = text_or_empty(body, "/params/name"@);
    if let McpStep::Ask { provider, request, id } = step {
        let k = choose|k: Seq<char>|
            #[trigger] live(t, k) is Some && has_prefix(k, TOOLS_PREFIX@ + name + "/"@) && denotes(
                behind(k, TOOLS_PREFIX@ + name + "/"@),
                provider@,
            );
        let s = behind(k, TOOLS_PREFIX@ + name + "/"@);
        assert(k =~= "tools/"@ + name + "/"@ + s);
        assert(live(t, "tools/"@ + name + "/"@ + s) is Some);
    }
}

} // verus!
