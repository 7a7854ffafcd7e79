use attention_matters::json::Json;
use attention_matters::jsonrpc::{
    generated_tool_list, initialize_result, is_tool, method_not_found, route_method,
    tool_call_response, tool_call_target, tool_result_error, tool_result_text, RpcRoute,
    INVALID_PARAMS, METHOD_NOT_FOUND, PROTOCOL_VERSION,
};

fn field<'a>(j: &'a Json, key: &str) -> &'a Json {
    j.get(key).unwrap_or_else(|| panic!("missing member {key}"))
}

fn text(j: &Json) -> &str {
    j.as_str().expect("a string value")
}

fn obj(members: Vec<(&str, Json)>) -> Json {
    Json::object(members.into_iter().map(|(k, v)| (k.to_string(), v)).collect())
}

#[test]
fn test_initialize_response_shape() {
    let resp = initialize_result("0.1.0");
    assert_eq!(text(field(&resp, "protocolVersion")), PROTOCOL_VERSION);
    assert_eq!(text(field(field(&resp, "serverInfo"), "name")), "am");
    assert!(matches!(field(field(&resp, "capabilities"), "tools"), Json::Object(_)));
}

#[test]
fn test_tool_list_has_12_tools() {
    let tools = generated_tool_list();
    assert_eq!(tools.len(), 12);
}

#[test]
fn test_tool_result_text_shape() {
    let result = tool_result_text("hello");
    let content = field(&result, "content").as_array().unwrap();
    assert_eq!(content.len(), 1);
    assert_eq!(text(field(&content[0], "type")), "text");
    assert_eq!(text(field(&content[0], "text")), "hello");
}

#[test]
fn test_tool_result_error_shape() {
    let result = tool_result_error("oops");
    assert_eq!(field(&result, "isError").as_bool(), Some(true));
    let content = field(&result, "content").as_array().unwrap();
    assert_eq!(text(field(&content[0], "text")), "oops");
}

#[test]
fn test_handle_tool_call_missing_params() {
    let err = tool_call_target(None).unwrap_err();
    assert_eq!(err.code, -32602);
    assert_eq!(err.message, "Missing params");
}

#[test]
fn test_handle_tool_call_dispatch() {
    let params = obj(vec![("name", Json::string("am_stats")), ("arguments", obj(vec![]))]);
    let (name, _args) = tool_call_target(Some(params)).unwrap();
    assert_eq!(name, "am_stats");
    let resp = tool_call_response(Json::Number("1".to_string()), Ok(tool_result_text("ok")));
    assert!(resp.error.is_none());
    let result = resp.result.unwrap();
    let content = field(&result, "content").as_array().unwrap();
    assert_eq!(text(field(&content[0], "text")), "ok");
}

#[test]
fn tool_call_without_name_is_invalid_params() {
    let params = obj(vec![("arguments", obj(vec![]))]);
    let err = tool_call_target(Some(params)).unwrap_err();
    assert_eq!(err.code, INVALID_PARAMS);
    assert_eq!(err.message, "Missing tool name");
}

#[test]
fn tool_call_without_arguments_gets_empty_object() {
    let params = obj(vec![("name", Json::string("am_query"))]);
    let (name, args) = tool_call_target(Some(params)).unwrap();
    assert_eq!(name, "am_query");
    match args {
        Json::Object(m) => assert!(m.is_empty()),
        _ => panic!("arguments should be an object"),
    }
}

#[test]
fn failed_tool_call_is_a_successful_response_carrying_the_error() {
    let resp = tool_call_response(Json::Null, Err("boom".to_string()));
    assert!(resp.error.is_none());
    let result = resp.result.unwrap();
    assert_eq!(field(&result, "isError").as_bool(), Some(true));
    let content = field(&result, "content").as_array().unwrap();
    assert_eq!(text(field(&content[0], "text")), "boom");
}

#[test]
fn unknown_method_error_names_the_method() {
    let e = method_not_found("frobnicate");
    assert_eq!(e.code, METHOD_NOT_FOUND);
    assert_eq!(e.message, "Method not found: frobnicate");
}

#[test]
fn tool_names_are_recognized() {
    assert!(is_tool("am_query"));
    assert!(is_tool("am_batch_query"));
    assert!(!is_tool("am_nothing"));
}

#[test]
fn methods_are_routed() {
    assert!(matches!(route_method("initialize"), RpcRoute::Initialize));
    assert!(matches!(route_method("tools/list"), RpcRoute::ToolsList));
    assert!(matches!(route_method("tools/call"), RpcRoute::ToolsCall));
    assert!(matches!(route_method("ping"), RpcRoute::Ping));
    assert!(matches!(route_method("bogus"), RpcRoute::MethodNotFound));
    assert!(matches!(route_method("notifications/initialized"), RpcRoute::Notification));
}
