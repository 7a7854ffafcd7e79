//! JSON-RPC for the MCP server: method routing, tool-call parameters and
//! the shapes of responses. Reading requests and writing responses is the
//! caller's.
use vstd::prelude::*;

use crate::json::{json_get, json_str, str_opt, Json};
use vstd::string::StringExecFns;

verus! {

/// MCP protocol version spoken by the server.
pub const PROTOCOL_VERSION: &'static str = "2024-11-05";

/// Instructions sent to clients at initialization.
pub const SERVER_INSTRUCTIONS: &'static str = "Query geometric memory at the START of every session with am_query. Buffer substantive exchanges with am_buffer. Mark important insights with am_salient. Use am_feedback to reinforce helpful recall.";

/// JSON-RPC error code: the request line is not valid JSON.
pub const PARSE_ERROR: i32 = -32700;

/// JSON-RPC error code: unknown method.
pub const METHOD_NOT_FOUND: i32 = -32601;

/// JSON-RPC error code: invalid parameters.
pub const INVALID_PARAMS: i32 = -32602;

/// The names of the tools that the server offers, in order.
pub open spec fn tool_names() -> Seq<Seq<char>> {
    seq![
        "am_query"@,
        "am_query_index"@,
        "am_retrieve"@,
        "am_activate_response"@,
        "am_salient"@,
        "am_buffer"@,
        "am_ingest"@,
        "am_stats"@,
        "am_export"@,
        "am_import"@,
        "am_feedback"@,
        "am_batch_query"@,
    ]
}

/// The tools that the server offers, by name.
pub fn generated_tool_list() -> (names: Vec<&'static str>)
    ensures
        names@.map_values(|s: &str| s@) == tool_names(),
{
    let names = vec![
        "am_query",
        "am_query_index",
        "am_retrieve",
        "am_activate_response",
        "am_salient",
        "am_buffer",
        "am_ingest",
        "am_stats",
        "am_export",
        "am_import",
        "am_feedback",
        "am_batch_query",
    ];
    assert(names@.map_values(|s: &str| s@) =~= tool_names());
    names
}

/// Whether `name` is one of the server's tools.
pub fn is_tool(name: &str) -> (b: bool)
    ensures
        b == tool_names().contains(name@),
{
    let names = generated_tool_list();
    let mut i: usize = 0;
    while i < names.len()
        invariant
            i <= names@.len(),
            names@.map_values(|s: &str| s@) == tool_names(),
            forall|j: int| 0 <= j < i ==> tool_names()[j] != name@,
        decreases names.len() - i,
    {
        assert(tool_names()[i as int] == names@[i as int]@);
        if crate::text::str_eq(names[i], name) {
            return true;
        }
        i = i + 1;
    }
    false
}

/// What the server does with a request, by its method.
#[derive(Clone, Copy, Debug, PartialEq, Eq, Structural)]
pub enum RpcRoute {
    Initialize,
    /// A notification: no response.
    Notification,
    ToolsList,
    ToolsCall,
    Ping,
    MethodNotFound,
}

/// `notifications/`.
pub open spec fn notifications_prefix() -> Seq<char> {
    seq!['n', 'o', 't', 'i', 'f', 'i', 'c', 'a', 't', 'i', 'o', 'n', 's', '/']
}

/// The route of a method.
pub open spec fn route_of(method: Seq<char>) -> RpcRoute {
    if method == "initialize"@ {
        RpcRoute::Initialize
    } else if crate::text::has_prefix(method, notifications_prefix()) {
        RpcRoute::Notification
    } else if method == "tools/list"@ {
        RpcRoute::ToolsList
    } else if method == "tools/call"@ {
        RpcRoute::ToolsCall
    } else if method == "ping"@ {
        RpcRoute::Ping
    } else {
        RpcRoute::MethodNotFound
    }
}

/// Route a request by its method.
pub fn route_method(method: &str) -> (r: RpcRoute)
    ensures
        r == route_of(method@),
{
    let chars = crate::text::chars_of(method);
    let prefix = vec!['n', 'o', 't', 'i', 'f', 'i', 'c', 'a', 't', 'i', 'o', 'n', 's', '/'];
    if crate::text::str_eq(method, "initialize") {
        RpcRoute::Initialize
    } else if crate::text::occurs_at_exec(&chars, prefix.as_slice(), 0) {
        RpcRoute::Notification
    } else if crate::text::str_eq(method, "tools/list") {
        RpcRoute::ToolsList
    } else if crate::text::str_eq(method, "tools/call") {
        RpcRoute::ToolsCall
    } else if crate::text::str_eq(method, "ping") {
        RpcRoute::Ping
    } else {
        RpcRoute::MethodNotFound
    }
}

/// A JSON-RPC error.
#[derive(Debug)]
pub struct JsonRpcError {
    pub code: i32,
    pub message: String,
    pub data: Option<Json>,
}

/// A JSON-RPC response: a result or an error.
#[derive(Debug)]
pub struct JsonRpcResponse {
    pub jsonrpc: String,
    pub id: Json,
    pub result: Option<Json>,
    pub error: Option<JsonRpcError>,
}

impl JsonRpcResponse {
    /// A successful response.
    pub fn success(id: Json, result: Json) -> (r: Self)
        ensures
            r.jsonrpc@ == "2.0"@,
            r.id == id,
            r.result == Some(result),
            r.error.is_none(),
    {
        JsonRpcResponse { jsonrpc: "2.0".to_owned(), id, result: Some(result), error: None }
    }

    /// An error response.
    pub fn error(id: Json, error: JsonRpcError) -> (r: Self)
        ensures
            r.jsonrpc@ == "2.0"@,
            r.id == id,
            r.result.is_none(),
            r.error == Some(error),
    {
        JsonRpcResponse { jsonrpc: "2.0".to_owned(), id, result: None, error: Some(error) }
    }
}

/// `j` is the member list `keys` (in order), each member as `value_ok` says.
pub open spec fn has_member(j: Json, k: int, key: Seq<char>) -> bool {
    j matches Json::Object(m) && 0 <= k < m@.len() && m@[k].0@ == key
}

/// The value of the `k`-th member of an object.
pub open spec fn member_value(j: Json, k: int) -> Json
    recommends
        j is Object,
{
    match j {
        Json::Object(m) => m@[k].1,
        _ => j,
    }
}

/// Number of members of an object (0 for other values).
pub open spec fn member_count(j: Json) -> int {
    match j {
        Json::Object(m) => m@.len() as int,
        _ => 0,
    }
}

/// `{"type": "text", "text": text}`.
pub open spec fn is_text_item(j: Json, text: Seq<char>) -> bool {
    &&& member_count(j) == 2
    &&& has_member(j, 0, "type"@) && json_str(member_value(j, 0)) == Some("text"@)
    &&& has_member(j, 1, "text"@) && json_str(member_value(j, 1)) == Some(text)
}

/// `{"content": [{"type": "text", "text": text}]}`, followed, when
/// `is_error`, by `"isError": true`.
pub open spec fn tool_result_shape(j: Json, text: Seq<char>, is_error: bool) -> bool {
    &&& member_count(j) == if is_error {
        2int
    } else {
        1int
    }
    &&& has_member(j, 0, "content"@)
    &&& member_value(j, 0) matches Json::Array(items) && items@.len() == 1 && is_text_item(
        items@[0],
        text,
    )
    &&& is_error ==> has_member(j, 1, "isError"@) && member_value(j, 1) == Json::Bool(true)
}

fn text_content(text: &str) -> (j: Json)
    ensures
        is_text_item(j, text@),
{
    let members: Vec<(String, Json)> = vec![
        ("type".to_owned(), Json::string("text")),
        ("text".to_owned(), Json::string(text)),
    ];
    Json::Object(members)
}

/// A successful tool result holding `text`.
pub fn tool_result_text(text: &str) -> (j: Json)
    ensures
        tool_result_shape(j, text@, false),
{
    let members: Vec<(String, Json)> = vec![("content".to_owned(), Json::Array(vec![text_content(text)]))];
    Json::Object(members)
}

/// A tool result reporting the error `message` (as text content, marked
/// `isError`).
pub fn tool_result_error(message: &str) -> (j: Json)
    ensures
        tool_result_shape(j, message@, true),
{
    let members: Vec<(String, Json)> = vec![
        ("content".to_owned(), Json::Array(vec![text_content(message)])),
        ("isError".to_owned(), Json::Bool(true)),
    ];
    Json::Object(members)
}

/// The tool to call and its arguments, from the parameters of a
/// `tools/call` request: missing parameters or a missing tool name are
/// invalid parameters; missing arguments are `{}`.
pub fn tool_call_target(params: Option<Json>) -> (r: Result<(String, Json), JsonRpcError>)
    ensures
        match params {
            None => r matches Err(e) && e.code == INVALID_PARAMS && e.message@ == "Missing params"@
                && e.data.is_none(),
            Some(p) => match str_opt(json_get(p, "name"@)) {
                None => r matches Err(e) && e.code == INVALID_PARAMS && e.message@
                    == "Missing tool name"@ && e.data.is_none(),
                Some(name) => r matches Ok(t) && t.0@ == name && match json_get(p, "arguments"@) {
                    Some(a) => t.1 == a,
                    None => t.1 matches Json::Object(m) && m@.len() == 0,
                },
            },
        },
{
    let p = match params {
        None => {
            return Err(
                JsonRpcError { code: INVALID_PARAMS, message: "Missing params".to_owned(), data: None },
            );
        },
        Some(p) => p,
    };
    let name = match p.get("name") {
        Some(n) => match n.as_str() {
            Some(s) => s.to_owned(),
            None => {
                return Err(
                    JsonRpcError {
                        code: INVALID_PARAMS,
                        message: "Missing tool name".to_owned(),
                        data: None,
                    },
                );
            },
        },
        None => {
            return Err(
                JsonRpcError {
                    code: INVALID_PARAMS,
                    message: "Missing tool name".to_owned(),
                    data: None,
                },
            );
        },
    };
    let arguments = match p.take("arguments") {
        Some(a) => a,
        None => Json::Object(Vec::new()),
    };
    Ok((name, arguments))
}

/// The response to a `tools/call` once the tool has run: its result, or,
/// when it failed, a tool result carrying the error message (the call
/// itself succeeded).
pub fn tool_call_response(id: Json, outcome: Result<Json, String>) -> (r: JsonRpcResponse)
    ensures
        r.jsonrpc@ == "2.0"@,
        r.id == id,
        r.error.is_none(),
        match outcome {
            Ok(v) => r.result == Some(v),
            Err(msg) => r.result matches Some(j) && tool_result_shape(j, msg@, true),
        },
{
    match outcome {
        Ok(v) => JsonRpcResponse::success(id, v),
        Err(msg) => JsonRpcResponse::success(id, tool_result_error(msg.as_str())),
    }
}

/// The error answering an unknown method.
pub fn method_not_found(method: &str) -> (e: JsonRpcError)
    ensures
        e.code == METHOD_NOT_FOUND,
        e.message@ == "Method not found: "@ + method@,
        e.data.is_none(),
{
    let mut message = "Method not found: ".to_owned();
    message.append(method);
    JsonRpcError { code: METHOD_NOT_FOUND, message, data: None }
}

/// The result of `initialize`: protocol version, capabilities (an empty
/// `tools` object), server name and version, and instructions, in that order.
pub fn initialize_result(version: &str) -> (j: Json)
    ensures
        member_count(j) == 4,
        has_member(j, 0, "protocolVersion"@) && json_str(member_value(j, 0)) == Some(PROTOCOL_VERSION@),
        has_member(j, 1, "capabilities"@) && member_count(member_value(j, 1)) == 1 && has_member(
            member_value(j, 1),
            0,
            "tools"@,
        ) && member_count(member_value(member_value(j, 1), 0)) == 0 && member_value(
            member_value(j, 1),
            0,
        ) is Object,
        has_member(j, 2, "serverInfo"@) && member_count(member_value(j, 2)) == 2 && has_member(
            member_value(j, 2),
            0,
            "name"@,
        ) && json_str(member_value(member_value(j, 2), 0)) == Some("am"@) && has_member(
            member_value(j, 2),
            1,
            "version"@,
        ) && json_str(member_value(member_value(j, 2), 1)) == Some(version@),
        has_member(j, 3, "instructions"@) && json_str(member_value(j, 3)) == Some(SERVER_INSTRUCTIONS@),
{
    let tools: Vec<(String, Json)> = Vec::new();
    let capabilities: Vec<(String, Json)> = vec![("tools".to_owned(), Json::Object(tools))];
    let server_info: Vec<(String, Json)> = vec![
        ("name".to_owned(), Json::string("am")),
        ("version".to_owned(), Json::string(version)),
    ];
    let members: Vec<(String, Json)> = vec![
        ("protocolVersion".to_owned(), Json::string(PROTOCOL_VERSION)),
        ("capabilities".to_owned(), Json::Object(capabilities)),
        ("serverInfo".to_owned(), Json::Object(server_info)),
        ("instructions".to_owned(), Json::string(SERVER_INSTRUCTIONS)),
    ];
    Json::Object(members)
}

} // verus!
