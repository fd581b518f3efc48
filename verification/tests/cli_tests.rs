use gatepost::cli::{extract_integration_id, extract_integration_id_exact, parse_command, parse_flag_map, Command};

#[test]
fn parse_flag_map_normalizes_hyphenated_keys() {
    let args = vec![
        "--approved-by".to_string(),
        "qa.user".to_string(),
        "--check-interval-seconds".to_string(),
        "30".to_string(),
    ];

    let parsed = parse_flag_map(&args).expect("flags parsed");

    assert_eq!(parsed.get("approved_by"), Some(&"qa.user".to_string()));
    assert_eq!(parsed.get("check_interval_seconds"), Some(&"30".to_string()));
}

#[test]
fn parse_flag_map_rejects_odd_number_of_args() {
    let args = vec!["--schema".to_string()];
    let error = parse_flag_map(&args).expect_err("should fail");
    assert!(error.contains("--name value pairs"));
}

#[test]
fn extract_integration_id_exact_rejects_nested_paths() {
    let error = extract_integration_id_exact("/api/integrations/demo/check").expect_err("nested path should fail");
    assert!(error.contains("Invalid integration endpoint"));
}

#[test]
fn extract_integration_id_trims_suffix_and_slashes() {
    let id = extract_integration_id("/api/integrations/demo/check", "/check").expect("id extracted");
    assert_eq!(id, "demo");
}

#[test]
fn parse_command_defaults_to_help_without_args() {
    let command = parse_command(Vec::new()).expect("command parsed");
    assert!(matches!(command, Command::Help));
}

#[test]
fn later_flag_value_wins() {
    let args = vec!["--addr".to_string(), "a".to_string(), "--addr".to_string(), "b".to_string()];
    let parsed = parse_flag_map(&args).expect("flags parsed");
    assert_eq!(parsed.get("addr"), Some(&"b".to_string()));
    assert_eq!(parsed.entries.len(), 1);
}

#[test]
fn flags_must_start_with_dashes() {
    let args = vec!["schema".to_string(), "x".to_string()];
    assert_eq!(parse_flag_map(&args).unwrap_err(), "Expected a flag starting with '--', found 'schema'.");
}

#[test]
fn commands_and_their_flags() {
    let args = |items: &[&str]| items.iter().map(|s| s.to_string()).collect::<Vec<String>>();
    match parse_command(args(&["serve"])).expect("serve parsed") {
        Command::Serve(serve) => {
            assert_eq!(serve.addr, "127.0.0.1:8080");
            assert_eq!(serve.data_dir, ".gatepost");
        }
        _ => panic!("expected serve"),
    }
    match parse_command(args(&["check", "--snapshot", "s.json", "--schema", "l.json"])).expect("check parsed") {
        Command::Check(check) => {
            assert_eq!(check.snapshot, "s.json");
            assert_eq!(check.schema, "l.json");
        }
        _ => panic!("expected check"),
    }
    assert_eq!(
        parse_command(args(&["check", "--snapshot", "s.json"])).unwrap_err(),
        "Missing required flag --schema."
    );
    assert_eq!(parse_command(args(&["deploy"])).unwrap_err(), "Unknown command 'deploy'.");
    assert!(matches!(parse_command(args(&["-h"])).expect("help"), Command::Help));
}
