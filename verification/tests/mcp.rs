use mycelium::evidence::{behind_leading_u64, is_reply_to};
use mycelium::kv::KvHandle;
use mycelium::mcp::{
    bridged_answer, bridged_request, initialize_request, list_request, mcp_answer, read_listed_tools,
    tool_answer, tool_call, McpError, McpStep, RemoteReply, RpcError, ToolOutcome,
};
use mycelium::mesh::MeshHandle;
use mycelium::node_id::NodeId;
use serde_json::Value;

const NOW: u64 = 1_000_000_000_000;

fn kv(port: u16) -> KvHandle {
    KvHandle::new(NodeId::new("127.0.0.1", port).unwrap(), 5, 2, 64)
}

fn doc(text: &str) -> Vec<u8> {
    text.as_bytes().to_vec()
}

fn json(text: &str) -> Value {
    serde_json::from_str(text).unwrap()
}

fn answer(step: McpStep) -> Value {
    match step {
        McpStep::Answer { body } => json(&body),
        McpStep::Ask { .. } => panic!("expected an answer"),
    }
}

fn framed(nonce: u64, text: &str) -> Vec<u8> {
    let mut v = nonce.to_le_bytes().to_vec();
    v.extend_from_slice(text.as_bytes());
    v
}

#[test]
fn test_mcp_initialize() {
    let body = answer(kv(1).mcp_request(&doc(
        r#"{"jsonrpc":"2.0","id":0,"method":"initialize","params":{"protocolVersion":"2024-11-05"}}"#,
    )));
    assert_eq!(body["result"]["protocolVersion"], "2024-11-05");
    assert!(body["result"]["serverInfo"]["name"].as_str().is_some());
    assert_eq!(body["id"], 0);
}

#[test]
fn test_mcp_tools_list() {
    let mut kv = kv(1);
    kv.register_mcp_tool("greet", r#"{"type":"object","description":"Greets a person"}"#, NOW);
    let _ = kv.set("tools/greet/127.0.0.1:2", b"{}".to_vec(), NOW);
    let _ = kv.set("tools/broken/127.0.0.1:2", b"not json".to_vec(), NOW);
    let body = answer(kv.mcp_request(&doc(r#"{"jsonrpc":"2.0","id":1,"method":"tools/list","params":{}}"#)));
    let tools = body["result"]["tools"].as_array().unwrap();
    assert_eq!(tools.len(), 2);
    assert!(tools.iter().any(|t| t["name"] == "greet"), "tool 'greet' not in list: {body}");
    let broken = tools.iter().find(|t| t["name"] == "broken").unwrap();
    assert_eq!(broken["inputSchema"], json("{}"));
}

#[test]
fn a_described_tool_is_listed_with_its_description() {
    let mut kv = kv(1);
    kv.register_mcp_tool("greet", r#"{"description":"Greets a person","type":"object"}"#, NOW);
    match kv.mcp_request(&doc(r#"{"id":1,"method":"tools/list"}"#)) {
        McpStep::Answer { body } => assert_eq!(
            body,
            r#"{"id":1,"jsonrpc":"2.0","result":{"tools":[{"description":"Greets a person","inputSchema":{"description":"Greets a person","type":"object"},"name":"greet"}]}}"#
        ),
        McpStep::Ask { .. } => panic!(),
    }
}

#[test]
fn test_mcp_tools_call_round_trip() {
    let mut kv = kv(1);
    kv.register_mcp_tool("square", r#"{"type":"object"}"#, NOW);
    let step = kv.mcp_request(&doc(
        r#"{"jsonrpc":"2.0","id":2,"method":"tools/call","params":{"name":"square","arguments":{"n":5.0}}}"#,
    ));
    let (provider, request, id) = match step {
        McpStep::Ask { provider, request, id } => (provider, request, id),
        McpStep::Answer { body } => panic!("unexpected answer: {body}"),
    };
    assert_eq!(provider, NodeId::new("127.0.0.1", 1).unwrap());
    let payload = framed(77, std::str::from_utf8(&request).unwrap());
    let call = tool_call(&payload, &vec!["square".to_string()]).expect("a call of the tool");
    assert_eq!(call.arguments, r#"{"n":5.0}"#);
    let reply = tool_answer(&call, &ToolOutcome::Value { json: "25.0".to_string() });
    assert!(is_reply_to(&reply, 77));
    let body = json(&mcp_answer(&id, &Some(behind_leading_u64(&reply))));
    assert!(body.get("error").is_none(), "unexpected error: {body}");
    let text = body["result"]["content"][0]["text"].as_str().unwrap();
    assert!(text.contains("25"), "expected 25, got '{text}'");
    assert_eq!(body["id"], 2);
}

#[test]
fn test_mcp_tools_call_not_found() {
    let body = answer(kv(1).mcp_request(&doc(
        r#"{"jsonrpc":"2.0","id":3,"method":"tools/call","params":{"name":"no-such-tool","arguments":{}}}"#,
    )));
    assert_eq!(body["error"]["code"], -32601);
    assert!(
        body["error"]["message"].as_str().unwrap().contains("no-such-tool"),
        "unexpected error message: {body}"
    );
}

#[test]
fn every_other_request_is_an_error() {
    let kv = kv(1);
    let body = answer(kv.mcp_request(&doc("nonsense")));
    assert_eq!(body["error"]["code"], -32700);
    assert_eq!(body["id"], Value::Null);
    let body = answer(kv.mcp_request(&doc(r#"{"id":"a","method":"tools/call","params":{}}"#)));
    assert_eq!(body["error"]["code"], -32602);
    assert_eq!(body["id"], "a");
    let body = answer(kv.mcp_request(&doc(r#"{"id":4,"method":"dance"}"#)));
    assert_eq!(body["error"]["code"], -32601);
    assert_eq!(body["error"]["message"], "method not found: dance");
    assert_eq!(json(&mcp_answer("5", &None))["error"]["code"], -32000);
    assert_eq!(json(&mcp_answer("5", &Some(doc("nonsense"))))["error"]["code"], -32603);
}

#[test]
fn test_tool_handle_drop_tombstones_kv() {
    let mut kv = kv(1);
    let key = kv.register_mcp_tool("ping", r#"{"type":"object"}"#, NOW);
    assert_eq!(key, "tools/ping/127.0.0.1:1");
    assert!(kv.get(&key).is_some(), "entry not found after registration");
    kv.retract_mcp_tool(&key, NOW);
    assert!(kv.get(&key).is_none(), "entry not deleted");
}

#[test]
fn test_multiple_tools_same_node_demux() {
    let payload = framed(1, r#"{"id":1,"params":{"name":"negate","arguments":{"n":3.0}}}"#);
    assert!(tool_call(&payload, &vec!["double".to_string()]).is_none());
    assert_eq!(tool_call(&payload, &vec!["negate".to_string()]).unwrap().name, "negate");
    assert!(tool_call(&vec![1, 2, 3], &vec!["negate".to_string()]).is_none());
    assert!(tool_call(&framed(1, "nonsense"), &vec!["".to_string()]).is_none());
}

#[test]
fn a_failing_tool_is_reported() {
    let payload = framed(9, r#"{"id":1,"params":{"name":"t"}}"#);
    let call = tool_call(&payload, &vec!["t".to_string()]).unwrap();
    assert_eq!(call.arguments, "null");
    let reply = tool_answer(&call, &ToolOutcome::Failed { message: "no \"luck\"".to_string() });
    let body = json(std::str::from_utf8(&behind_leading_u64(&reply)).unwrap());
    assert_eq!(body["error"]["code"], -32603);
    assert_eq!(body["error"]["message"], "no \"luck\"");
    let mut m = MeshHandle::new(kv(1));
    assert!(m.reply(&NodeId::new("127.0.0.1", 2).unwrap(), reply, true, NOW));
}

#[test]
fn test_register_and_call_tool_via_signal() {
    let node_b = NodeId::new("127.0.0.1", 2).unwrap();
    let mut b = MeshHandle::new(KvHandle::new(node_b.clone(), 5, 2, 64));
    let schema = r#"{"type":"object","properties":{"a":{"type":"number"},"b":{"type":"number"}},"required":["a","b"]}"#;
    let key = b.kv.register_mcp_tool("add", schema, NOW);
    assert_eq!(b.kv.get(&key), Some(schema.as_bytes().to_vec()));
    assert_eq!(b.kv.tool_provider("add"), Some(node_b));
    let rpc_req = r#"{"jsonrpc":"2.0","id":1,"method":"tools/call","params":{"name":"add","arguments":{"a":3.0,"b":4.0}}}"#;
    let call = tool_call(&framed(5, rpc_req), &vec!["add".to_string()]).expect("the call is for this tool");
    let args: Value = serde_json::from_str(&call.arguments).unwrap();
    let sum = args["a"].as_f64().unwrap_or(0.0) + args["b"].as_f64().unwrap_or(0.0);
    let reply = tool_answer(&call, &ToolOutcome::Value { json: Value::from(sum).to_string() });
    assert_eq!(&reply[..8], &5u64.to_le_bytes(), "the reply carries the nonce of the call");
    let resp: Value = serde_json::from_slice(&reply[8..]).expect("invalid JSON reply");
    assert_eq!(resp["result"]["content"][0]["type"], "text");
    let text = resp["result"]["content"][0]["text"].as_str().unwrap();
    assert!(text.contains('7'), "expected sum '7' in text '{text}'");
}

#[test]
fn test_mcp_client_discovers_tools() {
    let listed = read_listed_tools(&doc(
        r#"{"result":{"tools":[{"name":"remote-echo","inputSchema":{"type":"object"}},{"x":1},{"name":"bare"}]}}"#,
    ))
    .unwrap();
    assert_eq!(
        listed,
        vec![
            ("remote-echo".to_string(), r#"{"type":"object"}"#.to_string()),
            ("bare".to_string(), "{}".to_string()),
        ]
    );
    let mut kv = kv(1);
    let keys = kv.bridge_tools(&listed, NOW);
    assert_eq!(keys, vec!["tools/remote-echo/127.0.0.1:1", "tools/bare/127.0.0.1:1"]);
    let found = kv.scan_prefix("tools/").iter().any(|(k, _)| k.contains("remote-echo"));
    assert!(found, "remote-echo not in tools/");
    kv.delete_all(&keys, NOW);
    assert!(kv.scan_prefix("tools/").is_empty());
    assert!(read_listed_tools(&doc("{}")).unwrap().is_empty());
    match read_listed_tools(&doc("nonsense")) {
        Err(e) => assert!(e.message().starts_with("transport error: ")),
        Ok(_) => panic!("nonsense was read"),
    }
}

#[test]
fn test_mcp_client_proxies_call() {
    let payload = framed(5, r#"{"id":99,"params":{"name":"proxy-target","arguments":{}}}"#);
    let call = tool_call(&payload, &vec!["proxy-target".to_string()]).unwrap();
    assert_eq!(
        bridged_request(&call),
        r#"{"id":99,"jsonrpc":"2.0","method":"tools/call","params":{"arguments":{},"name":"proxy-target"}}"#
    );
    let reply = bridged_answer(&call, &RemoteReply::Document { json: r#"{"ok":1}"#.to_string() });
    assert_eq!(behind_leading_u64(&reply), doc(r#"{"ok":1}"#));
    let bad = bridged_answer(&call, &RemoteReply::Unreadable { message: "m".to_string() });
    assert_eq!(json(std::str::from_utf8(&behind_leading_u64(&bad)).unwrap())["error"]["code"], -32603);
    let gone = bridged_answer(&call, &RemoteReply::Unreachable { message: "m".to_string() });
    assert_eq!(json(std::str::from_utf8(&behind_leading_u64(&gone)).unwrap())["error"]["code"], -32000);
    assert_eq!(json(&initialize_request())["method"], "initialize");
    assert_eq!(json(&list_request())["method"], "tools/list");
}

#[test]
fn errors_have_words() {
    assert_eq!(McpError::Rpc(RpcError::Timeout).message(), "rpc error: timeout");
    assert_eq!(McpError::ToolNotFound("t".to_string()).message(), "tool not found: t");
    assert_eq!(McpError::ToolError("t".to_string()).message(), "tool error: t");
    assert_eq!(McpError::Transport("t".to_string()).message(), "transport error: t");
}
