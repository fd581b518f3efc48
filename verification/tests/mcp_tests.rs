use gatepost::mcp::read_message_line;
use gatepost::mcp::{sample_request, ToolsPaging, FIRST_LIST_REQUEST_ID};
use gatepost::integration::ToolCallSample;
use gatepost::json::{JsonMember, JsonNumber, JsonValue};
use gatepost::mcp::{
    absorb_tools_page, classify_response, initialize_params, message_line, notification_message,
    request_message, sort_tools_by_name, stdio_contract, tool_call_params, tool_call_record,
    tools_list_params, ResponseOutcome, INITIALIZE_REQUEST_ID,
};
use gatepost::render::json_to_text;

fn text(s: &str) -> JsonValue {
    JsonValue::String(s.to_string())
}

fn number(n: u64) -> JsonValue {
    JsonValue::Number(JsonNumber::PosInt(n))
}

fn object(members: Vec<(&str, JsonValue)>) -> JsonValue {
    JsonValue::Object(
        members
            .into_iter()
            .map(|(key, value)| JsonMember { key: key.to_string(), value })
            .collect(),
    )
}

fn tool(name: &str) -> JsonValue {
    object(vec![("name", text(name))])
}

#[test]
fn initialize_request_line_is_compact_json() {
    let message = request_message(INITIALIZE_REQUEST_ID, "initialize", initialize_params("0.1.0"));
    assert_eq!(
        message_line(&message),
        "{\"id\":1,\"jsonrpc\":\"2.0\",\"method\":\"initialize\",\"params\":{\"capabilities\":{\"roots\":{\"listChanged\":false},\"sampling\":{}},\"clientInfo\":{\"name\":\"gatepost\",\"version\":\"0.1.0\"},\"protocolVersion\":\"2025-03-26\"}}\n"
    );
}

#[test]
fn notification_without_params_has_no_params_member() {
    let message = notification_message("notifications/initialized", None);
    assert_eq!(json_to_text(&message), "{\"jsonrpc\":\"2.0\",\"method\":\"notifications/initialized\"}");
    let with_params = notification_message("n", Some(object(vec![])));
    assert_eq!(json_to_text(&with_params), "{\"jsonrpc\":\"2.0\",\"method\":\"n\",\"params\":{}}");
}

#[test]
fn response_for_another_id_is_skipped() {
    let message = object(vec![("id", number(2)), ("result", object(vec![]))]);
    assert!(matches!(classify_response(&message, 1, "initialize"), ResponseOutcome::Unrelated));
    let notice = object(vec![("method", text("notifications/progress"))]);
    assert!(matches!(classify_response(&notice, 1, "initialize"), ResponseOutcome::Unrelated));
    let text_id = object(vec![("id", text("1")), ("result", object(vec![]))]);
    assert!(matches!(classify_response(&text_id, 1, "initialize"), ResponseOutcome::Unrelated));
}

#[test]
fn response_result_and_errors_are_told_apart() {
    let answer = object(vec![("id", number(10)), ("result", object(vec![("tools", JsonValue::Array(vec![]))]))]);
    match classify_response(&answer, 10, "tools/list") {
        ResponseOutcome::Answered(result) => assert_eq!(json_to_text(&result), "{\"tools\":[]}"),
        _ => panic!("expected an answer"),
    }

    let failure = object(vec![
        ("error", object(vec![("code", JsonValue::Number(JsonNumber::NegInt(-32601))), ("message", text("nope"))])),
        ("id", number(10)),
    ]);
    match classify_response(&failure, 10, "tools/list") {
        ResponseOutcome::Failed(message) => assert_eq!(
            message,
            "MCP server returned an error for tools/list: {\"code\":-32601,\"message\":\"nope\"}"
        ),
        _ => panic!("expected a failure"),
    }

    let empty = object(vec![("id", number(10))]);
    match classify_response(&empty, 10, "tools/list") {
        ResponseOutcome::Failed(message) => assert_eq!(message, "MCP response for tools/list did not include a result"),
        _ => panic!("expected a failure"),
    }
}

#[test]
fn tools_pages_are_collected_until_no_cursor() {
    let mut tools = Vec::new();
    let first = object(vec![
        ("nextCursor", text("page-2")),
        ("tools", JsonValue::Array(vec![tool("b"), tool("a")])),
    ]);
    assert_eq!(absorb_tools_page(&mut tools, &first), Some("page-2".to_string()));
    let second = object(vec![("next_cursor", text("page-3")), ("tools", JsonValue::Array(vec![tool("c")]))]);
    assert_eq!(absorb_tools_page(&mut tools, &second), Some("page-3".to_string()));
    let last = object(vec![("nextCursor", number(4)), ("tools", text("not an array"))]);
    assert_eq!(absorb_tools_page(&mut tools, &last), None);
    assert_eq!(tools.len(), 3);

    assert_eq!(json_to_text(&tools_list_params(&None)), "{}");
    assert_eq!(json_to_text(&tools_list_params(&Some("page-2".to_string()))), "{\"cursor\":\"page-2\"}");
}

#[test]
fn tools_are_sorted_by_name_stably() {
    let tools = vec![
        tool("b"),
        object(vec![("name", text("a")), ("x", number(1))]),
        object(vec![("description", text("no name"))]),
        object(vec![("name", text("a")), ("x", number(2))]),
    ];
    let sorted = sort_tools_by_name(tools);
    let texts: Vec<String> = sorted.iter().map(json_to_text).collect();
    assert_eq!(
        texts,
        vec![
            "{\"description\":\"no name\"}".to_string(),
            "{\"name\":\"a\",\"x\":1}".to_string(),
            "{\"name\":\"a\",\"x\":2}".to_string(),
            "{\"name\":\"b\"}".to_string(),
        ]
    );
}

#[test]
fn tool_call_sample_request_and_record() {
    let sample = ToolCallSample { name: "search".to_string(), arguments: object(vec![("q", text("gatepost"))]) };
    assert_eq!(json_to_text(&tool_call_params(&sample)), "{\"arguments\":{\"q\":\"gatepost\"},\"name\":\"search\"}");
    let record = tool_call_record(&sample, object(vec![("content", JsonValue::Array(vec![]))]));
    assert_eq!(
        json_to_text(&record),
        "{\"arguments\":{\"q\":\"gatepost\"},\"name\":\"search\",\"result\":{\"content\":[]}}"
    );
}

#[test]
fn stdio_contract_is_canonical() {
    let initialize = object(vec![("serverInfo", object(vec![("version", text("1")), ("name", text("mock"))]))]);
    let contract = stdio_contract(initialize, vec![tool("search")], vec![]);
    assert_eq!(
        json_to_text(&contract),
        "{\"baselineType\":\"mcp_stdio_contract\",\"initialize\":{\"serverInfo\":{\"name\":\"mock\",\"version\":\"1\"}},\"toolCallSamples\":[],\"tools\":[{\"name\":\"search\"}]}"
    );
}

#[test]
fn message_lines_are_trimmed_and_parsed() {
    assert!(read_message_line("   \r\n").is_none());
    match read_message_line(" {\"id\":1,\"result\":{}} \n") {
        Some(Ok(value)) => assert_eq!(json_to_text(&value), "{\"id\":1,\"result\":{}}"),
        _ => panic!("expected a message"),
    }
    match read_message_line("not json\n") {
        Some(Err(error)) => assert!(error.starts_with("Failed to parse MCP JSON-RPC message: ")),
        _ => panic!("expected an error"),
    }
}

#[test]
fn paging_counts_request_ids_and_sorts_tools() {
    let mut paging = ToolsPaging::start();
    assert_eq!(paging.next_id, FIRST_LIST_REQUEST_ID);
    assert_eq!(
        json_to_text(&paging.next_request()),
        "{\"id\":10,\"jsonrpc\":\"2.0\",\"method\":\"tools/list\",\"params\":{}}"
    );
    paging.absorb(&object(vec![("nextCursor", text("p2")), ("tools", JsonValue::Array(vec![tool("b")]))]));
    assert!(!paging.finished);
    assert_eq!(
        json_to_text(&paging.next_request()),
        "{\"id\":11,\"jsonrpc\":\"2.0\",\"method\":\"tools/list\",\"params\":{\"cursor\":\"p2\"}}"
    );
    paging.absorb(&object(vec![("tools", JsonValue::Array(vec![tool("a")]))]));
    assert!(paging.finished);
    let names: Vec<String> = paging.into_tools().iter().map(json_to_text).collect();
    assert_eq!(names, vec!["{\"name\":\"a\"}".to_string(), "{\"name\":\"b\"}".to_string()]);

    let sample = ToolCallSample { name: "search".to_string(), arguments: object(vec![]) };
    let (id, message) = sample_request(1, &sample);
    assert_eq!(id, 101);
    assert_eq!(
        json_to_text(&message),
        "{\"id\":101,\"jsonrpc\":\"2.0\",\"method\":\"tools/call\",\"params\":{\"arguments\":{},\"name\":\"search\"}}"
    );
}
