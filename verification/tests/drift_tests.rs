use gatepost::canonical::canonicalize_value;
use gatepost::drift::{detect_drift, DriftKind, DriftSeverity};
use gatepost::json::{JsonMember, JsonNumber, JsonValue};

fn text(s: &str) -> JsonValue {
    JsonValue::String(s.to_string())
}

fn number(n: u64) -> JsonValue {
    JsonValue::Number(JsonNumber::PosInt(n))
}

fn object(members: Vec<(&str, JsonValue)>) -> JsonValue {
    JsonValue::Object(
        members
            .into_iter()
            .map(|(key, value)| JsonMember { key: key.to_string(), value })
            .collect(),
    )
}

fn array(items: Vec<JsonValue>) -> JsonValue {
    JsonValue::Array(items)
}

#[test]
fn canonicalization_keeps_object_key_order_stable() {
    let source = object(vec![
        ("b", object(vec![("d", number(1)), ("c", number(2))])),
        ("a", number(1)),
    ]);

    let canonical = canonicalize_value(source);
    let keys: Vec<String> = match &canonical {
        JsonValue::Object(members) => members.iter().map(|m| m.key.clone()).collect(),
        _ => panic!("object"),
    };

    assert_eq!(keys, vec!["a".to_string(), "b".to_string()]);
}

#[test]
fn detects_removed_field_as_critical_drift() {
    let approved = object(vec![(
        "tools",
        object(vec![(
            "search",
            object(vec![(
                "inputSchema",
                object(vec![("type", text("object")), ("required", array(vec![text("q")]))]),
            )]),
        )]),
    )]);
    let live = object(vec![("tools", object(vec![]))]);

    let report = detect_drift(&approved, &live);

    assert!(report.drift_detected);
    assert_eq!(report.entries[0].kind, DriftKind::Removed);
    assert_eq!(report.entries[0].severity, DriftSeverity::Critical);
}

#[test]
fn detects_description_only_change_as_informational() {
    let approved = object(vec![("description", text("Old description"))]);
    let live = object(vec![("description", text("New description"))]);

    let report = detect_drift(&approved, &live);

    assert!(report.drift_detected);
    assert_eq!(report.entries[0].severity, DriftSeverity::Informational);
}
