use unicode_le::detect::{examine, Kind, Options};
use unicode_le::mcp::{
    capped, method, read_max_results, read_options, requested_paths, tool, tool_name,
    MaxResultsArg, Method, Tool, DEFAULT_MAX_RESULTS, INVALID_PARAMS, MAX_MAX_RESULTS,
    METHOD_NOT_FOUND,
};

fn strings(items: &[&str]) -> Vec<String> {
    items.iter().map(|item| item.to_string()).collect()
}

#[test]
fn a_fractional_cap_is_refused() {
    let error = read_max_results(MaxResultsArg::NotAnInteger).expect_err("a refusal");
    assert_eq!(error, "maxResults must be a positive integer");
}

#[test]
fn a_bad_kind_or_script_is_refused_by_name() {
    assert!(read_options(&strings(&["homoglyph"]), &[])
        .expect_err("a refusal")
        .contains("homoglyph"));
    assert!(read_options(&[], &strings(&["Klingon"]))
        .expect_err("a refusal")
        .contains("Klingon"));
}

#[test]
fn the_cap_defaults_clamps_and_refuses_zero() {
    assert_eq!(read_max_results(MaxResultsArg::Absent), Ok(DEFAULT_MAX_RESULTS));
    assert_eq!(read_max_results(MaxResultsArg::Integer(7)), Ok(7));
    assert_eq!(
        read_max_results(MaxResultsArg::Integer(1_000_000)),
        Ok(MAX_MAX_RESULTS)
    );
    assert!(read_max_results(MaxResultsArg::Integer(0)).is_err());
}

#[test]
fn named_kinds_and_scripts_become_options() {
    let options = read_options(&strings(&["bidi", "invisible"]), &strings(&["Han"]))
        .expect("options");
    assert_eq!(options.kinds, [Kind::BidiControl, Kind::Invisible]);
    assert_eq!(
        options.expected_scripts,
        [unicode_script::Script::Han as u8]
    );
    let empty = read_options(&[], &[]).expect("options");
    assert!(empty.kinds.is_empty());
    assert!(empty.expected_scripts.is_empty());
}

#[test]
fn an_unknown_method_is_a_protocol_error() {
    let (code, message) = method("does/not/exist").expect_err("a protocol error");
    assert_eq!(code, METHOD_NOT_FOUND);
    assert_eq!(message, "this server does not implement does/not/exist");
    assert_eq!(method("initialize"), Ok(Method::Initialize));
    assert_eq!(method("tools/list"), Ok(Method::ToolsList));
    assert_eq!(method("tools/call"), Ok(Method::ToolsCall));
    assert_eq!(method("ping"), Ok(Method::Ping));
}

#[test]
fn an_unknown_tool_is_a_protocol_error() {
    let (code, message) = tool("unicode_le_fix").expect_err("a protocol error");
    assert_eq!(code, INVALID_PARAMS);
    assert!(message.contains("unicode_le_fix"), "{message}");
}

#[test]
fn tools_list_offers_both_tools() {
    assert_eq!(tool_name(Tool::Detect), "detect_unicode_risks");
    assert_eq!(tool_name(Tool::Scan), "unicode_le_scan");
    assert_eq!(tool("detect_unicode_risks"), Ok(Tool::Detect));
    assert_eq!(tool("unicode_le_scan"), Ok(Tool::Scan));
}

#[test]
fn a_missing_argument_is_a_tool_failure_not_a_protocol_error() {
    let error = requested_paths(None, None).expect_err("a refusal");
    assert!(error.contains("no file or directory"), "{error}");
    assert!(!error.contains("--"), "{error}");
    assert_eq!(
        requested_paths(None, Some(Vec::new())).expect_err("a refusal"),
        "the list of paths was empty"
    );
    assert_eq!(
        requested_paths(None, Some(vec![None, None])).expect_err("a refusal"),
        "the list of paths was empty"
    );
}

#[test]
fn a_path_or_the_strings_of_a_list_are_what_is_scanned() {
    assert_eq!(
        requested_paths(Some("src".to_string()), Some(vec![Some("x".to_string())])),
        Ok(vec!["src".to_string()])
    );
    assert_eq!(
        requested_paths(
            None,
            Some(vec![Some("a".to_string()), None, Some("b".to_string())])
        ),
        Ok(vec!["a".to_string(), "b".to_string()])
    );
}

#[test]
fn a_capped_answer_says_it_was_capped() {
    let content = "\u{202E}\u{202E}\u{202E}";
    let (kept, truncated) = capped(examine(content, "text", &Options::default()).findings, 2);
    assert_eq!(kept.len(), 2);
    assert!(truncated);
    let (kept, truncated) = capped(examine(content, "text", &Options::default()).findings, 3);
    assert_eq!(kept.len(), 3);
    assert!(!truncated);
}
