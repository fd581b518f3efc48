use gatepost::http::schema_from_http_response;
use gatepost::integration::{
    CreateIntegrationRequest, GatePostStore, ManagedIntegration, PolicyMode, SourceKind, TrustState,
    UpdateIntegrationRequest,
};
use gatepost::json::{JsonMember, JsonValue};
use gatepost::lifecycle::{
    add_integration, approve_integration, baseline_snapshot, check_can_report, dashboard_summary,
    find_integration, finish_check, live_source, ping_approver, ping_baseline, start_check,
    update_integration, BaselineCapture, LiveSource,
};

fn text(s: &str) -> JsonValue {
    JsonValue::String(s.to_string())
}

fn object(members: Vec<(&str, JsonValue)>) -> JsonValue {
    JsonValue::Object(
        members
            .into_iter()
            .map(|(key, value)| JsonMember { key: key.to_string(), value })
            .collect(),
    )
}

fn search_schema() -> JsonValue {
    object(vec![(
        "tools",
        object(vec![(
            "search",
            object(vec![(
                "inputSchema",
                object(vec![
                    ("type", text("object")),
                    ("required", JsonValue::Array(vec![text("q")])),
                ]),
            )]),
        )]),
    )])
}

fn file_request(name: &str, policy_mode: PolicyMode) -> CreateIntegrationRequest {
    CreateIntegrationRequest {
        name: name.to_string(),
        system: "zero".to_string(),
        environment: "test".to_string(),
        server: "partner".to_string(),
        source_kind: SourceKind::FileJson,
        live_schema_path: Some("live.json".to_string()),
        http_url: None,
        mcp_command: None,
        mcp_args: Vec::new(),
        sample_tool_calls: Vec::new(),
        policy_mode,
        check_interval_seconds: 5,
    }
}

fn capture(store: &GatePostStore, id: &str, schema: JsonValue, approved_by: &str) -> BaselineCapture {
    let index = find_integration(store, id).expect("integration present");
    BaselineCapture::Written(baseline_snapshot(&store.integrations[index], schema, approved_by))
}

fn run_check(integration: &mut ManagedIntegration, live: Result<JsonValue, String>, now: u128) -> Result<(), String> {
    start_check(integration, None, now)?;
    if let Ok(value) = &live {
        assert!(check_can_report(integration, value));
    }
    finish_check(integration, live, now)
}

#[test]
fn approve_and_check_file_integration_updates_status() {
    let mut store = GatePostStore::default();
    let integration = add_integration(&mut store, "data", file_request("External Search", PolicyMode::Block))
        .expect("integration added");
    assert_eq!(integration.id, "external-search");

    let written = capture(&store, &integration.id, search_schema(), "qa.user");
    let approved = approve_integration(&mut store, &integration.id, "qa.user", written, 1_000).expect("approved");
    assert_eq!(approved.status.trust_state, TrustState::Approved);

    let drifted = object(vec![("tools", object(vec![]))]);
    let index = find_integration(&store, &integration.id).expect("integration present");
    run_check(&mut store.integrations[index], Ok(drifted), 2_000).expect("checked");
    let checked = &store.integrations[index];
    assert_eq!(checked.status.trust_state, TrustState::Blocked);
    assert!(checked.status.drift_detected);
    assert_eq!(checked.incidents.len(), 1);
}

#[test]
fn approve_and_check_http_integration_updates_status() {
    let body = "{\"serverName\":\"HTTP Search\",\"toolCount\":1,\"tools\":[{\"name\":\"search\",\"description\":\"Search partner data\",\"inputSchema\":{\"type\":\"object\",\"required\":[\"q\"]}}]}";
    let response = format!(
        "HTTP/1.1 200 OK\r\nContent-Type: application/json\r\nContent-Length: {}\r\n\r\n{}",
        body.len(),
        body
    );
    let live = schema_from_http_response(&response).expect("json body");

    let mut store = GatePostStore::default();
    let mut request = file_request("HTTP Search", PolicyMode::AlertOnly);
    request.source_kind = SourceKind::HttpJson;
    request.live_schema_path = None;
    request.server = "partner-http".to_string();
    request.http_url = Some("http://127.0.0.1:8081/schema".to_string());
    let integration = add_integration(&mut store, "data", request).expect("integration added");
    assert_eq!(integration.id, "http-search");

    let written = capture(&store, &integration.id, live.deep_copy(), "qa.user");
    let approved = approve_integration(&mut store, &integration.id, "qa.user", written, 1_000).expect("approved");
    assert_eq!(approved.status.trust_state, TrustState::Approved);

    let index = find_integration(&store, &integration.id).expect("integration present");
    run_check(&mut store.integrations[index], Ok(live), 2_000).expect("checked");
    let checked = &store.integrations[index];
    assert_eq!(checked.status.trust_state, TrustState::Approved);
    assert!(!checked.status.drift_detected);
}

#[test]
fn check_reports_error_when_baseline_missing() {
    let mut store = GatePostStore::default();
    let integration = add_integration(&mut store, "data", file_request("No Baseline", PolicyMode::AlertOnly))
        .expect("integration added");

    let index = find_integration(&store, &integration.id).expect("integration present");
    let error = start_check(&mut store.integrations[index], None, 1_000).expect_err("missing baseline should error");
    assert!(error.contains("Baseline not found."));
    let current = &store.integrations[index];
    assert_eq!(current.status.trust_state, TrustState::Error);
    assert!(current.status.error_message.clone().unwrap_or_default().contains("Baseline not found."));
}

#[test]
fn update_integration_resets_baseline_state() {
    let mut store = GatePostStore::default();
    let integration = add_integration(&mut store, "data", file_request("Editable", PolicyMode::AlertOnly))
        .expect("integration added");
    let written = capture(&store, &integration.id, object(vec![("tools", object(vec![("search", object(vec![]))]))]), "qa.user");
    let _ = approve_integration(&mut store, &integration.id, "qa.user", written, 1_000).expect("approved");

    let mut request: UpdateIntegrationRequest = file_request("Editable Updated", PolicyMode::Block);
    request.environment = "prod".to_string();
    request.server = "partner-v2".to_string();
    request.check_interval_seconds = 10;
    let updated = update_integration(&mut store, &integration.id, request).expect("updated");

    assert_eq!(updated.name, "Editable Updated");
    assert_eq!(updated.status.trust_state, TrustState::Uninitialized);
    assert!(updated.approved_snapshot.is_none());
}

#[test]
fn ping_baseline_creates_and_updates_snapshot() {
    let mut store = GatePostStore::default();
    let integration = add_integration(&mut store, "data", file_request("Ping Baseline", PolicyMode::AlertOnly))
        .expect("integration added");

    let index = find_integration(&store, &integration.id).expect("integration present");
    let approver = ping_approver(&store.integrations[index], None);
    assert_eq!(approver, "manual.baseline.ping");
    let written = capture(&store, &integration.id, search_schema(), &approver);
    let pinged = ping_baseline(&mut store, &integration.id, written, 1_000).expect("ping baseline");
    assert_eq!(pinged.status.trust_state, TrustState::Approved);
    assert!(pinged.approved_snapshot.is_some());
    assert!(pinged.snapshot_path.ends_with("ping-baseline-approved.json"));
}

#[test]
fn second_integration_with_same_name_is_refused() {
    let mut store = GatePostStore::default();
    add_integration(&mut store, "data", file_request("Twice", PolicyMode::AlertOnly)).expect("first added");
    let error = add_integration(&mut store, "data", file_request("Twice", PolicyMode::AlertOnly)).expect_err("second refused");
    assert!(error.contains("already exists"));
    assert_eq!(store.integrations.len(), 1);
}

#[test]
fn failed_capture_marks_error_and_keeps_baseline() {
    let mut store = GatePostStore::default();
    let integration = add_integration(&mut store, "data", file_request("Fails", PolicyMode::AlertOnly))
        .expect("integration added");
    let error = approve_integration(
        &mut store,
        &integration.id,
        "qa.user",
        BaselineCapture::FetchFailed("unreachable".to_string()),
        1_000,
    )
    .expect_err("capture failed");
    assert_eq!(error, "unreachable");
    let current = &store.integrations[0];
    assert_eq!(current.status.trust_state, TrustState::Error);
    assert!(current.approved_snapshot.is_none());
}

#[test]
fn unchanged_drift_opens_one_incident() {
    let mut store = GatePostStore::default();
    let integration = add_integration(&mut store, "data", file_request("Twice Checked", PolicyMode::AlertOnly))
        .expect("integration added");
    let written = capture(&store, &integration.id, search_schema(), "qa.user");
    approve_integration(&mut store, &integration.id, "qa.user", written, 1_000).expect("approved");

    let index = find_integration(&store, &integration.id).expect("integration present");
    let drifted = || object(vec![("tools", object(vec![]))]);
    run_check(&mut store.integrations[index], Ok(drifted()), 2_000).expect("first check");
    run_check(&mut store.integrations[index], Ok(drifted()), 3_000).expect("second check");
    let current = &store.integrations[index];
    assert_eq!(current.status.trust_state, TrustState::DriftDetected);
    assert_eq!(current.incidents.len(), 1);
}

#[test]
fn fetch_failure_during_check_is_an_error_not_drift() {
    let mut store = GatePostStore::default();
    let integration = add_integration(&mut store, "data", file_request("Offline", PolicyMode::Block))
        .expect("integration added");
    let written = capture(&store, &integration.id, search_schema(), "qa.user");
    approve_integration(&mut store, &integration.id, "qa.user", written, 1_000).expect("approved");

    let index = find_integration(&store, &integration.id).expect("integration present");
    let error = run_check(&mut store.integrations[index], Err("connection refused".to_string()), 2_000)
        .expect_err("fetch failed");
    assert_eq!(error, "connection refused");
    let current = &store.integrations[index];
    assert_eq!(current.status.trust_state, TrustState::Error);
    assert!(!current.status.drift_detected);
    assert_eq!(current.status.summary, "GatePOST could not capture the current MCP contract.");
    assert!(current.incidents.is_empty());
}

#[test]
fn should_check_waits_for_the_interval() {
    let mut store = GatePostStore::default();
    add_integration(&mut store, "data", file_request("Timed", PolicyMode::AlertOnly)).expect("integration added");
    let integration = &mut store.integrations[0];
    assert!(integration.should_check(0));
    integration.status.last_checked_epoch_ms = Some(10_000);
    assert!(!integration.should_check(14_999));
    assert!(integration.should_check(15_000));
    assert!(!integration.should_check(5_000));
}

#[test]
fn live_source_reports_missing_configuration() {
    let mut store = GatePostStore::default();
    let mut request = file_request("Mcp Source", PolicyMode::AlertOnly);
    request.source_kind = SourceKind::McpStdio;
    request.live_schema_path = None;
    request.mcp_command = Some("python".to_string());
    request.mcp_args = vec!["server.py".to_string()];
    add_integration(&mut store, "data", request).expect("integration added");
    match live_source(&store.integrations[0]) {
        Ok(LiveSource::Mcp { command, args, samples }) => {
            assert_eq!(command, "python");
            assert_eq!(args, vec!["server.py".to_string()]);
            assert!(samples.is_empty());
        }
        _ => panic!("expected an MCP source"),
    }
    assert_eq!(store.integrations[0].source_summary(), "python server.py");

    store.integrations[0].mcp_command = None;
    match live_source(&store.integrations[0]) {
        Err(error) => assert_eq!(error, "This integration is missing an MCP command."),
        Ok(_) => panic!("expected an error"),
    }
}

#[test]
fn dashboard_lists_every_integration() {
    let mut store = GatePostStore::default();
    add_integration(&mut store, "data", file_request("One", PolicyMode::AlertOnly)).expect("one");
    let mut second = file_request("Two", PolicyMode::AlertOnly);
    second.server = "other".to_string();
    add_integration(&mut store, "data", second).expect("two");
    let summary = dashboard_summary(&store);
    assert_eq!(summary.integrations.len(), 2);
    assert_eq!(summary.integrations[1].name, "Two");
}

#[test]
fn state_and_snapshot_paths_sit_under_the_data_directory() {
    let state = gatepost::lifecycle::store_path("data");
    assert!(state.starts_with("data"));
    assert!(state.ends_with("gatepost-state.json"));
    let snapshot = gatepost::lifecycle::snapshot_path_for("data", "demo");
    assert!(snapshot.starts_with("data"));
    assert!(snapshot.ends_with("demo-approved.json"));
    assert!(snapshot.contains("snapshots"));
}

#[test]
fn refreshed_baseline_checks_clean_and_clears_incidents() {
    let mut store = GatePostStore::default();
    let integration = add_integration(&mut store, "data", file_request("Refreshed", PolicyMode::AlertOnly))
        .expect("integration added");
    let written = capture(&store, &integration.id, search_schema(), "qa.user");
    approve_integration(&mut store, &integration.id, "qa.user", written, 1_000).expect("approved");

    let index = find_integration(&store, &integration.id).expect("integration present");
    let drifted = || object(vec![("tools", object(vec![]))]);
    run_check(&mut store.integrations[index], Ok(drifted()), 2_000).expect("drift check");
    assert_eq!(store.integrations[index].incidents.len(), 1);

    let approver = ping_approver(&store.integrations[index], None);
    assert_eq!(approver, "qa.user");
    let written = capture(&store, &integration.id, drifted(), &approver);
    let pinged = ping_baseline(&mut store, &integration.id, written, 3_000).expect("refreshed");
    assert!(pinged.incidents.is_empty());
    assert_eq!(pinged.status.summary, "Baseline updated from live schema via Ping baseline.");

    run_check(&mut store.integrations[index], Ok(drifted()), 4_000).expect("clean check");
    let current = &store.integrations[index];
    assert_eq!(current.status.trust_state, TrustState::Approved);
    assert!(!current.status.drift_detected);
    assert!(current.incidents.is_empty());
    assert_eq!(current.status.summary, "No schema drift detected.");
}
