use gatepost::canonical::canonicalize_value;
use gatepost::cli::{check_exit_code, check_report_lines, entry_line, format_severity};
use gatepost::drift::{detect_drift, DriftKind, DriftSeverity};
use gatepost::json::{JsonMember, JsonNumber, JsonValue};
use gatepost::render::json_to_text;

fn text(s: &str) -> JsonValue {
    JsonValue::String(s.to_string())
}

fn number(n: u64) -> JsonValue {
    JsonValue::Number(JsonNumber::PosInt(n))
}

fn object(members: Vec<(&str, JsonValue)>) -> JsonValue {
    JsonValue::Object(
        members
            .into_iter()
            .map(|(key, value)| JsonMember { key: key.to_string(), value })
            .collect(),
    )
}

#[test]
fn compact_text_escapes_strings() {
    let value = object(vec![
        ("s", text("a\"b\\c\nd\u{1}\u{1f}\u{7f}é")),
        ("n", JsonValue::Array(vec![number(7), JsonValue::Number(JsonNumber::NegInt(-5)), JsonValue::Number(JsonNumber::Float("1.5".to_string()))])),
        ("z", JsonValue::Null),
        ("t", JsonValue::Bool(true)),
    ]);
    assert_eq!(
        json_to_text(&value),
        "{\"s\":\"a\\\"b\\\\c\\nd\\u0001\\u001f\u{7f}é\",\"n\":[7,-5,1.5],\"z\":null,\"t\":true}"
    );
    let serde_text = serde_json::to_string(&serde_json::Value::String("a\"b\\c\nd\u{1}\u{1f}\u{7f}é\t\r\u{8}\u{c}".to_string())).unwrap();
    assert_eq!(json_to_text(&text("a\"b\\c\nd\u{1}\u{1f}\u{7f}é\t\r\u{8}\u{c}")), serde_text);
}

#[test]
fn canonical_form_is_idempotent_and_sorted() {
    let source = object(vec![("b", object(vec![("d", number(1)), ("c", number(2))])), ("a", JsonValue::Array(vec![object(vec![("y", number(1)), ("x", number(2))])]))]);
    let once = canonicalize_value(source);
    let text_once = json_to_text(&once);
    assert_eq!(text_once, "{\"a\":[{\"x\":2,\"y\":1}],\"b\":{\"c\":2,\"d\":1}}");
    let twice = canonicalize_value(once);
    assert_eq!(json_to_text(&twice), text_once);
}

#[test]
fn member_order_does_not_cause_drift() {
    let approved = object(vec![("a", number(1)), ("b", object(vec![("c", number(2)), ("d", number(3))]))]);
    let live = object(vec![("b", object(vec![("d", number(3)), ("c", number(2))])), ("a", number(1))]);
    let snapshot = canonicalize_value(approved);
    let report = detect_drift(&snapshot, &live);
    assert!(!report.drift_detected);
    assert_eq!(report.summary(), "No schema drift detected.");
    assert_eq!(check_exit_code(&report), 0);
    assert_eq!(check_report_lines(&report), vec!["No schema drift detected.".to_string()]);
}

#[test]
fn drift_entries_paths_messages_and_summary() {
    let approved = object(vec![
        ("a", number(1)),
        ("b", object(vec![("c", number(1))])),
        ("items", JsonValue::Array(vec![number(1), number(2)])),
    ]);
    let live = object(vec![
        ("b", object(vec![("c", number(2))])),
        ("d", JsonValue::Bool(true)),
        ("items", JsonValue::Array(vec![number(1), number(2), number(3)])),
    ]);
    let report = detect_drift(&approved, &live);
    assert!(report.drift_detected);
    let paths: Vec<&str> = report.entries.iter().map(|e| e.path.as_str()).collect();
    assert_eq!(paths, vec!["$schema.a", "$schema.b.c", "$schema.items[2]", "$schema.d"]);
    assert_eq!(report.entries[0].kind, DriftKind::Removed);
    assert_eq!(report.entries[0].severity, DriftSeverity::Critical);
    assert_eq!(report.entries[0].message, "Approved field 'a' is missing from the live schema.");
    assert_eq!(report.entries[1].kind, DriftKind::Changed);
    assert_eq!(report.entries[1].severity, DriftSeverity::Major);
    assert_eq!(report.entries[1].message, "Value changed from 1 to 2.");
    assert_eq!(report.entries[2].kind, DriftKind::Added);
    assert_eq!(report.entries[2].severity, DriftSeverity::Minor);
    assert_eq!(report.entries[2].message, "Live schema added a new array entry.");
    assert_eq!(report.entries[3].message, "Live schema introduced new field 'd'.");
    assert_eq!(
        report.summary(),
        "Detected 4 drift change(s): critical=1, major=1, minor=2, informational=0"
    );
    assert_eq!(entry_line(&report.entries[0]), "- [critical Removed] $schema.a: Approved field 'a' is missing from the live schema.");
    assert_eq!(format_severity(&DriftSeverity::Informational), "info");
    assert_eq!(check_exit_code(&report), 2);
    assert_eq!(check_report_lines(&report).len(), 5);
}

#[test]
fn removed_array_items_are_critical() {
    let approved = object(vec![("items", JsonValue::Array(vec![number(1), number(2)]))]);
    let live = object(vec![("items", JsonValue::Array(vec![number(1)]))]);
    let report = detect_drift(&approved, &live);
    assert_eq!(report.entries.len(), 1);
    assert_eq!(report.entries[0].path, "$schema.items[1]");
    assert_eq!(report.entries[0].kind, DriftKind::Removed);
    assert_eq!(report.entries[0].severity, DriftSeverity::Critical);
}

#[test]
fn type_change_is_critical_and_null_change_major() {
    let approved = object(vec![("x", number(1)), ("y", JsonValue::Null)]);
    let live = object(vec![("x", text("1")), ("y", number(3))]);
    let report = detect_drift(&approved, &live);
    assert_eq!(report.entries[0].severity, DriftSeverity::Critical);
    assert_eq!(report.entries[0].message, "Value changed from 1 to \"1\".");
    assert_eq!(report.entries[1].severity, DriftSeverity::Major);
    assert_eq!(report.entries[1].message, "Value changed from null to 3.");
}

#[test]
fn long_previews_are_shortened() {
    let long = "a".repeat(100);
    let approved = object(vec![("title", text(&long))]);
    let live = object(vec![("title", text("short"))]);
    let report = detect_drift(&approved, &live);
    assert_eq!(report.entries[0].severity, DriftSeverity::Informational);
    let expected = format!("Value changed from \"{}... to \"short\".", "a".repeat(76));
    assert_eq!(report.entries[0].message, expected);
}

#[test]
fn zero_floats_compare_equal() {
    let approved = object(vec![("v", JsonValue::Number(JsonNumber::Float("0.0".to_string())))]);
    let live = object(vec![("v", JsonValue::Number(JsonNumber::Float("-0.0".to_string())))]);
    assert!(!detect_drift(&approved, &live).drift_detected);
}

fn from_serde(v: &serde_json::Value) -> JsonValue {
    match v {
        serde_json::Value::Null => JsonValue::Null,
        serde_json::Value::Bool(b) => JsonValue::Bool(*b),
        serde_json::Value::Number(n) => {
            if let Some(u) = n.as_u64() {
                JsonValue::Number(JsonNumber::PosInt(u))
            } else if let Some(i) = n.as_i64() {
                JsonValue::Number(JsonNumber::NegInt(i))
            } else {
                JsonValue::Number(JsonNumber::Float(n.to_string()))
            }
        }
        serde_json::Value::String(s) => JsonValue::String(s.clone()),
        serde_json::Value::Array(items) => JsonValue::Array(items.iter().map(from_serde).collect()),
        serde_json::Value::Object(map) => JsonValue::Object(
            map.iter()
                .map(|(k, v)| JsonMember { key: k.clone(), value: from_serde(v) })
                .collect(),
        ),
    }
}

#[test]
fn compact_text_matches_serde_json() {
    let source = r#"{"z":[1,-2,3.25,1e300,-0.0,true,null],"a":{"q":"tab\tquote\"","e":"","u":"\u00e9\u0007"},"m":{}}"#;
    let parsed: serde_json::Value = serde_json::from_str(source).expect("json");
    let ours = json_to_text(&from_serde(&parsed));
    assert_eq!(ours, serde_json::to_string(&parsed).expect("text"));
    let canonical = canonicalize_value(from_serde(&parsed));
    assert_eq!(json_to_text(&canonical), serde_json::to_string(&parsed).expect("text"));
}

#[test]
fn compact_text_matches_serde_json_on_many_documents() {
    let sources = [
        "null",
        "[]",
        "{}",
        "\"\\u0000\\u001f\\\\/\\b\\f\\n\\r\\t\\u2028\"",
        "[0,18446744073709551615,-9223372036854775808,0.1,1e-7,123456789.125,-1.5e300]",
        "{\"nested\":{\"deep\":[[{\"k\":[null,false]}]]},\"\u{1f600}\":\"emoji \u{1f600}\"}",
        "{\"tools\":[{\"name\":\"search\",\"description\":\"Search partner data\",\"inputSchema\":{\"type\":\"object\",\"required\":[\"q\"]}}],\"toolCount\":1}",
    ];
    for source in sources {
        let parsed: serde_json::Value = serde_json::from_str(source).expect("json");
        let expected = serde_json::to_string(&parsed).expect("text");
        assert_eq!(json_to_text(&from_serde(&parsed)), expected);
        let through_library = gatepost::json::parse_json_text(source).expect("parsed");
        assert_eq!(json_to_text(&through_library), expected);
    }
}

#[test]
fn summary_ignores_entry_order() {
    let approved = object(vec![("a", number(1)), ("b", number(2)), ("c", text("x"))]);
    let live = object(vec![("b", number(3)), ("d", number(4))]);
    let mut report = detect_drift(&approved, &live);
    let before = report.summary();
    report.entries.reverse();
    assert_eq!(report.summary(), before);
    assert_eq!(before, "Detected 4 drift change(s): critical=2, major=1, minor=1, informational=0");
}

#[test]
fn canonical_form_keeps_the_document() {
    let source = object(vec![("b", JsonValue::Array(vec![number(2), number(1)])), ("a", object(vec![("z", JsonValue::Null), ("y", number(0))]))]);
    let copy = object(vec![("b", JsonValue::Array(vec![number(2), number(1)])), ("a", object(vec![("z", JsonValue::Null), ("y", number(0))]))]);
    let canonical = canonicalize_value(source);
    assert!(!detect_drift(&canonical, &copy).drift_detected);
    assert_eq!(json_to_text(&canonical), "{\"a\":{\"y\":0,\"z\":null},\"b\":[2,1]}");
}

#[test]
fn canonical_form_with_repeated_keys_is_stable_and_idempotent() {
    let source = object(vec![("b", number(1)), ("a", number(2)), ("b", number(3))]);
    let once = canonicalize_value(source);
    assert_eq!(json_to_text(&once), "{\"a\":2,\"b\":1,\"b\":3}");
    let twice = canonicalize_value(once.deep_copy());
    assert_eq!(json_to_text(&twice), json_to_text(&once));
}
