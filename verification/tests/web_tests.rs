use gatepost::http::{
    chunked_body_splits_cleanly, decode_chunked_body, decode_http_body, http_response_body, parse_http_url,
    response_splits_cleanly, schema_request_text,
};
use gatepost::request::slugify;
use gatepost::web::{error_response, head_complete, parse_request_head, response_head, route_request, text_response, Route};

#[test]
fn routes_are_chosen_by_method_and_path() {
    assert!(matches!(route_request("GET", "/"), Route::Index));
    assert!(matches!(route_request("GET", "/api/status"), Route::Status));
    assert!(matches!(route_request("POST", "/api/integrations"), Route::CreateIntegration));
    match route_request("POST", "/api/integrations/demo/approve") {
        Route::Approve(id) => assert_eq!(id, "demo"),
        _ => panic!("expected approve"),
    }
    match route_request("PUT", "/api/integrations/demo") {
        Route::Update(id) => assert_eq!(id, "demo"),
        _ => panic!("expected update"),
    }
    match route_request("POST", "/api/integrations/demo/baseline/ping") {
        Route::PingBaseline(id) => assert_eq!(id, "demo"),
        _ => panic!("expected ping"),
    }
    match route_request("DELETE", "/api/integrations/demo") {
        Route::Rejected(error) => assert_eq!(error, "Not found"),
        _ => panic!("expected not found"),
    }
    match route_request("PUT", "/api/integrations/demo/check") {
        Route::Rejected(error) => assert_eq!(error, "Invalid integration endpoint."),
        _ => panic!("expected a rejection"),
    }
}

#[test]
fn response_head_has_status_and_length() {
    let response = text_response(404, "Not found".to_string());
    assert_eq!(
        response_head(&response),
        "HTTP/1.1 404 Not Found\r\nContent-Type: text/plain; charset=utf-8\r\nContent-Length: 9\r\nConnection: close\r\n\r\n"
    );
    assert_eq!(error_response("Not found".to_string()).status_code, 404);
    assert_eq!(error_response("Bad input".to_string()).status_code, 400);
}

#[test]
fn request_head_is_parsed() {
    let request = "POST /api/integrations/demo/approve HTTP/1.1\r\nHost: x\r\ncontent-length: 25\r\n\r\n{\"approved_by\":\"qa.user\"}";
    assert!(head_complete(request.as_bytes()));
    let head = parse_request_head(request).expect("request parsed");
    assert_eq!(head.method, "POST");
    assert_eq!(head.path, "/api/integrations/demo/approve");
    assert_eq!(head.content_length, 25);
    assert_eq!(&request.as_bytes()[head.body_start..], b"{\"approved_by\":\"qa.user\"}");

    assert!(!head_complete(b"GET / HTTP/1.1\r\n"));
    assert_eq!(parse_request_head("GET / HTTP/1.1\r\n").unwrap_err(), "Malformed HTTP request");
    assert_eq!(
        parse_request_head("GET / HTTP/1.1\r\nContent-Length: x\r\n\r\n").unwrap_err(),
        "Invalid Content-Length value: invalid digit found in string"
    );
    assert_eq!(parse_request_head("GET\r\n\r\n").unwrap_err(), "Missing request path");
}

#[test]
fn url_errors_match_integer_parsing() {
    assert_eq!(
        parse_http_url("http://host:99999/x").unwrap_err(),
        format!("Invalid HTTP port in schema URL: {}", "99999".parse::<u16>().unwrap_err())
    );
    assert_eq!(
        parse_http_url("http://host:/x").unwrap_err(),
        format!("Invalid HTTP port in schema URL: {}", "".parse::<u16>().unwrap_err())
    );
    assert_eq!(parse_http_url("https://host/x").unwrap_err(), "Only plain http:// schema URLs are supported right now.");
    assert_eq!(parse_http_url("http:///x").unwrap(), ("x".to_string(), 80, "/".to_string()));
    assert_eq!(parse_http_url("http://:8080/x").unwrap_err(), "HTTP schema URL is missing a host.");
    assert_eq!(parse_http_url("http://host").unwrap(), ("host".to_string(), 80, "/".to_string()));
    assert_eq!(
        schema_request_text("host", "/schema"),
        "GET /schema HTTP/1.1\r\nHost: host\r\nConnection: close\r\nAccept: application/json\r\n\r\n"
    );
}

#[test]
fn chunked_bodies_and_their_errors() {
    assert_eq!(decode_chunked_body("3;ext=1\r\nabc\r\n2\r\nde\r\n0\r\n\r\n").unwrap(), "abcde");
    assert_eq!(
        decode_chunked_body("zz\r\n").unwrap_err(),
        format!("Invalid chunk size 'zz': {}", usize::from_str_radix("zz", 16).unwrap_err())
    );
    assert_eq!(
        decode_chunked_body("abc").unwrap_err(),
        "Chunked HTTP response is malformed (missing chunk size line)."
    );
    assert_eq!(
        decode_chunked_body("5\r\nab\r\n").unwrap_err(),
        "Chunked HTTP response ended before chunk data completed."
    );
    assert_eq!(
        decode_http_body("HTTP/1.1 200 OK\r\nTransfer-Encoding: Chunked", "1\r\nx\r\n0\r\n\r\n").unwrap(),
        "x"
    );
    assert_eq!(decode_http_body("HTTP/1.1 200 OK", "plain").unwrap(), "plain");
}

#[test]
fn response_status_must_be_200() {
    assert_eq!(
        http_response_body("HTTP/1.1 404 Not Found\r\n\r\nnothing").unwrap_err(),
        "HTTP schema endpoint returned non-200 status: HTTP/1.1 404 Not Found"
    );
    assert_eq!(http_response_body("no head end").unwrap_err(), "HTTP response was malformed.");
    assert_eq!(http_response_body("HTTP/1.1 200 OK\r\n\r\n{}").unwrap(), "{}");
}

#[test]
fn slugs_keep_letters_and_digits() {
    assert_eq!(slugify("External Search"), "external-search");
    assert_eq!(slugify("  --HTTP  Search v2!! "), "http-search-v2");
}

#[test]
fn read_http_request_parses_method_path_and_body() {
    let body = "{\"approved_by\":\"qa.user\"}";
    let request = format!(
        "POST /api/integrations/demo/approve HTTP/1.1\r\nHost: 127.0.0.1\r\nContent-Length: {}\r\n\r\n{}",
        body.len(),
        body
    );
    let bytes = request.as_bytes();
    assert!(head_complete(bytes));
    let head = parse_request_head(&request).expect("request parsed");
    assert_eq!(head.method, "POST");
    assert_eq!(head.path, "/api/integrations/demo/approve");
    let received = &bytes[head.body_start..head.body_start + head.content_length];
    assert_eq!(String::from_utf8(received.to_vec()).expect("utf8 body"), body);
}

#[test]
fn chunks_that_would_split_a_character_are_detected() {
    assert!(chunked_body_splits_cleanly("2\r\né\r\n0\r\n\r\n"));
    assert_eq!(decode_chunked_body("2\r\né\r\n0\r\n\r\n").unwrap(), "é");
    assert!(!chunked_body_splits_cleanly("1\r\né\r\n0\r\n\r\n"));
    assert!(!chunked_body_splits_cleanly("ffffffffffffffff\r\nx\r\n"));
    assert!(chunked_body_splits_cleanly("zz\r\n"));
    assert!(response_splits_cleanly("HTTP/1.1 404 Not Found\r\nTransfer-Encoding: chunked\r\n\r\n1\r\né\r\n"));
    assert!(!response_splits_cleanly("HTTP/1.1 200 OK\r\nTransfer-Encoding: chunked\r\n\r\n1\r\né\r\n"));
    assert!(response_splits_cleanly("HTTP/1.1 200 OK\r\n\r\né"));
}

#[test]
fn slug_of_a_slug_is_itself() {
    for name in ["External Search", "  --HTTP  Search v2!! ", "already-a-slug", "ÄÖ x"] {
        let id = slugify(name);
        assert_eq!(slugify(&id), id);
    }
}

#[test]
fn chunked_body_decodes_to_joined_chunks() {
    let chunks = ["hello ", "wörld", "{\"a\":1}\r\n"];
    let mut body = String::new();
    for chunk in chunks {
        body.push_str(&format!("{:x}\r\n{}\r\n", chunk.len(), chunk));
    }
    body.push_str("0\r\n\r\n");
    assert_eq!(decode_chunked_body(&body).unwrap(), chunks.concat());
}

#[test]
fn framed_chunks_always_read_cleanly() {
    let chunks = ["é", "ab\r\n", "\u{1f600}x"];
    let mut body = String::new();
    for chunk in chunks {
        body.push_str(&format!("{:x}\r\n{}\r\n", chunk.len(), chunk));
    }
    body.push_str("0\r\n\r\n");
    assert!(chunked_body_splits_cleanly(&body));
    assert_eq!(decode_chunked_body(&body).unwrap(), chunks.concat());
}
