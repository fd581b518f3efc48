use gatepost::http::schema_from_http_response;
use gatepost::json::load_json_file;
use gatepost::catalog::validate_mcp_tool_catalog_schema;
use gatepost::http::{decode_chunked_body, parse_http_url};
use gatepost::json::{JsonMember, JsonNumber, JsonValue};

fn text(s: &str) -> JsonValue {
    JsonValue::String(s.to_string())
}

fn object(members: Vec<(&str, JsonValue)>) -> JsonValue {
    JsonValue::Object(
        members
            .into_iter()
            .map(|(key, value)| JsonMember { key: key.to_string(), value })
            .collect(),
    )
}

#[test]
fn parse_http_url_ignores_whitespace_in_url() {
    let (host, port, path) =
        parse_http_url(" http:// /localhost:41131/mcp/tools ").expect("sanitized URL should parse");
    assert_eq!(host, "localhost");
    assert_eq!(port, 41131);
    assert_eq!(path, "/mcp/tools");
}

#[test]
fn decode_chunked_body_parses_valid_payload() {
    let raw = "7\r\n{\"a\":1}\r\n0\r\n\r\n";
    let decoded = decode_chunked_body(raw).expect("chunked body decode");
    assert_eq!(decoded, "{\"a\":1}");
}

#[test]
fn validate_mcp_tool_catalog_schema_accepts_valid_payload() {
    let payload = object(vec![
        ("serverName", text("Orders API")),
        ("toolCount", JsonValue::Number(JsonNumber::PosInt(1))),
        (
            "tools",
            JsonValue::Array(vec![object(vec![
                ("name", text("list_orders")),
                ("description", text("Lists orders.")),
                (
                    "inputSchema",
                    object(vec![("type", text("object")), ("properties", object(vec![]))]),
                ),
            ])]),
        ),
    ]);
    validate_mcp_tool_catalog_schema(&payload).expect("valid tool catalog");
}

#[test]
fn validate_mcp_tool_catalog_schema_rejects_missing_tools_array() {
    let payload = object(vec![("protocol", text("MCP")), ("message", text("initialize details"))]);
    let error = validate_mcp_tool_catalog_schema(&payload).expect_err("invalid payload");
    assert!(error.contains("'tools' array"));
}

#[test]
fn tool_count_must_be_a_matching_integer() {
    let tools = || JsonValue::Array(vec![]);
    let as_text = object(vec![("toolCount", text("1")), ("tools", tools())]);
    assert_eq!(
        validate_mcp_tool_catalog_schema(&as_text).unwrap_err(),
        "HTTP schema payload 'toolCount' must be a non-negative integer."
    );
    let negative = object(vec![("toolCount", JsonValue::Number(JsonNumber::NegInt(-1))), ("tools", tools())]);
    assert!(validate_mcp_tool_catalog_schema(&negative).is_err());
    let float = object(vec![("toolCount", JsonValue::Number(JsonNumber::Float("0.0".to_string()))), ("tools", tools())]);
    assert!(validate_mcp_tool_catalog_schema(&float).is_err());
    let wrong = object(vec![("toolCount", JsonValue::Number(JsonNumber::PosInt(2))), ("tools", tools())]);
    assert_eq!(
        validate_mcp_tool_catalog_schema(&wrong).unwrap_err(),
        "HTTP schema payload 'toolCount' (2) does not match tools length (0)."
    );
    let right = object(vec![("toolCount", JsonValue::Number(JsonNumber::PosInt(0))), ("tools", tools())]);
    assert!(validate_mcp_tool_catalog_schema(&right).is_ok());
}

#[test]
fn schema_is_read_from_an_http_response() {
    let ok = "HTTP/1.1 200 OK\r\n\r\n{\"tools\":[{\"name\":\"a\",\"description\":\"d\",\"inputSchema\":{}}]}";
    let value = schema_from_http_response(ok).expect("catalog");
    assert!(matches!(value, JsonValue::Object(_)));
    let bad_json = "HTTP/1.1 200 OK\r\n\r\n{oops";
    let error = schema_from_http_response(bad_json).unwrap_err();
    let serde_error = serde_json::from_str::<serde_json::Value>("{oops").unwrap_err();
    assert_eq!(error, format!("Failed to parse JSON from HTTP schema endpoint: {serde_error}"));
    let not_catalog = "HTTP/1.1 200 OK\r\n\r\n[]";
    assert_eq!(schema_from_http_response(not_catalog).unwrap_err(), "HTTP schema payload must be a JSON object.");
}

#[test]
fn json_files_are_parsed_with_their_path_in_errors() {
    let value = load_json_file("live.json", " {\"b\":1,\"a\":[true,null,-3,2.5]} ").expect("parsed");
    assert_eq!(gatepost::render::json_to_text(&value), "{\"a\":[true,null,-3,2.5],\"b\":1}");
    let error = load_json_file("live.json", "").unwrap_err();
    let serde_error = serde_json::from_str::<serde_json::Value>("").unwrap_err();
    assert_eq!(error, format!("Failed to parse JSON in live.json: {serde_error}"));
}
