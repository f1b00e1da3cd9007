use unicode_le::cli::summary_lines;
use unicode_le::detect::{Options, Reason, Refusal};
use unicode_le::scan::{
    describe, exit_code, refused, report, scan_bytes, scan_content, severity_name, unreadable,
    FailOn, FileReport, SCHEMA,
};
use unicode_le::detect::Severity;

fn one(content: &str) -> FileReport {
    scan_content(content, "a.ts".to_string(), &Options::default())
}

#[test]
fn a_clean_file_exits_zero() {
    let report = report(vec![one("const total = 1;\n")]);
    assert_eq!(report.summary.findings, 0);
    assert_eq!(exit_code(&report, FailOn::Any, false), 0);
    assert_eq!(exit_code(&report, FailOn::Any, true), 0);
}

#[test]
fn the_schema_is_carried_and_pinned() {
    let report = report(vec![one("x")]);
    assert_eq!(report.schema, 1);
    assert_eq!(SCHEMA, 1);
}

#[test]
fn the_report_carries_no_timestamp() {
    let rendered = format!("{:?}", report(vec![one("x")]));
    for field in ["time", "date", "generated"] {
        assert!(!rendered.contains(field), "{rendered}");
    }
}

#[test]
fn scan_a_finding_exits_one() {
    let report = report(vec![one("let a = \"\u{202E}\";\n")]);
    assert_eq!(report.summary.findings, 1);
    assert_eq!(report.summary.bidi, 1);
    assert_eq!(exit_code(&report, FailOn::Any, false), 1);
}

#[test]
fn failing_on_bidi_ignores_the_cleanliness_findings() {
    let report = report(vec![one("let a = \"x\u{00A0}y\";\n")]);
    assert_eq!(report.summary.findings, 1);
    assert_eq!(report.summary.bidi, 0);
    assert_eq!(exit_code(&report, FailOn::Any, false), 1);
    assert_eq!(exit_code(&report, FailOn::Bidi, false), 0);
}

#[test]
fn a_binary_file_is_refused_rather_than_read() {
    let scanned = scan_bytes(
        &[0x89, 0x50, 0x4E, 0x47, 0x00, 0x1A],
        "logo.png".to_string(),
        &Options::default(),
    );
    assert!(scanned.was_unexamined());
    assert_eq!(scanned.refusals[0].reason, Reason::BinaryOrUndecodable);
    assert_eq!(exit_code(&report(vec![scanned]), FailOn::Any, false), 0);
}

#[test]
fn a_refusal_reaches_the_exit_code_only_under_strict() {
    let scanned = report(vec![scan_bytes(
        &[b'c', b'a', b'f', 0xE9],
        "notes.txt".to_string(),
        &Options::default(),
    )]);
    assert_eq!(exit_code(&scanned, FailOn::Any, false), 0);
    assert_eq!(exit_code(&scanned, FailOn::Any, true), 2);
}

#[test]
fn a_missing_file_is_named_rather_than_dropped() {
    let scanned = unreadable(
        "gone.ts".to_string(),
        "No such file or directory (os error 2)",
    );
    assert!(scanned.was_unexamined());
    assert_eq!(scanned.file, "gone.ts");
    assert_eq!(
        scanned.refusals[0].detail,
        "could not be read: No such file or directory (os error 2)"
    );
    assert_eq!(scanned.summary.refusals, 1);
}

#[test]
fn a_script_context_refusal_is_not_an_unexamined_file() {
    let scanned = one("ключ: значение\nдругой: текст");
    assert!(!scanned.was_unexamined());
    assert_eq!(scanned.summary.refusals, 1);
    assert_eq!(scanned.summary.findings, 0);
}

#[test]
fn the_run_summary_adds_up_the_files() {
    let report = report(vec![
        one("let a = \"\u{202E}\";\n"),
        one("let b = \"x\u{00A0}y\";\n"),
        one("clean\n"),
    ]);
    assert_eq!(report.summary.files, 3);
    assert_eq!(report.summary.findings, 2);
    assert_eq!(report.summary.bidi, 1);
}

#[test]
fn the_human_line_carries_the_codepoint_and_the_verdict() {
    let scanned = one("let a = \"\u{202E}\";\n");
    let line = describe(&scanned, &scanned.findings[0]);
    assert!(line.contains("a.ts:1:10"), "{line}");
    assert!(line.contains("[high] bidi-control U+202E"), "{line}");
    assert!(line.is_ascii(), "{line}");
}

#[test]
fn the_human_line_carries_no_character_it_describes() {
    let content = "p\u{430}ypal \u{202E} x\u{200B}y";
    let scanned = one(content);
    assert!(!scanned.findings.is_empty());
    for finding in &scanned.findings {
        let line = describe(&scanned, finding);
        assert!(line.is_ascii(), "{line}");
    }
}

#[test]
fn a_refused_file_is_in_the_report_and_counted() {
    let file = refused(
        "data.bin".to_string(),
        Refusal {
            reason: Reason::EncodingUnknown,
            detail: "a UTF-16LE byte-order mark".to_string(),
        },
    );
    let run = report(vec![file, one("clean\n")]);
    assert_eq!(run.summary.files, 2);
    assert_eq!(run.summary.refusals, 1);
    assert_eq!(run.summary.unexamined, 1);
    assert_eq!(run.files[0].file, "data.bin");
    assert!(run.files[0].findings.is_empty());
}

#[test]
fn a_file_reads_as_the_format_its_name_names() {
    let content = "{\"greeting\": \"hi\u{202E}\"}";
    let keyed = scan_content(content, "messages.json".to_string(), &Options::default());
    assert_eq!(keyed.findings[0].key.as_deref(), Some("greeting"));
    let plain = scan_content(content, "messages.txt".to_string(), &Options::default());
    assert_eq!(plain.findings[0].key, None);
}

#[test]
fn severities_are_named_in_lower_case() {
    assert_eq!(severity_name(Severity::Low), "low");
    assert_eq!(severity_name(Severity::Medium), "medium");
    assert_eq!(severity_name(Severity::High), "high");
}

#[test]
fn the_summary_names_every_finding_and_the_totals() {
    let run = report(vec![one("let a = \"\u{202E}\";\n"), one("clean\n")]);
    let lines = summary_lines(&run);
    assert!(lines.iter().any(|line| line.contains("a.ts:1:10")), "{lines:?}");
    let last = lines.last().expect("a totals line");
    assert!(last.contains("2 files"), "{last}");
    assert!(last.contains("1 finding"), "{last}");
    assert!(lines.iter().all(|line| line.is_ascii()));
}

#[test]
fn a_hostile_file_name_is_escaped_and_the_key_is_named() {
    let scanned = scan_content(
        "{\"greeting\": \"hi\u{202E}\"}",
        "invoice\u{202E}fdp.json".to_string(),
        &Options::default(),
    );
    let line = describe(&scanned, &scanned.findings[0]);
    assert!(line.starts_with("invoice\\u202Efdp.json:1:17"), "{line}");
    assert!(line.contains("U+202E  at greeting  right-to-left override"), "{line}");
    assert!(line.is_ascii(), "{line}");
}

#[test]
fn a_tab_separated_file_is_read_on_tabs() {
    let content = "id\tname\tcity\n1\tva\u{202E}lue\tparis\n";
    let tabbed = scan_content(content, "rows.tsv".to_string(), &Options::default());
    assert_eq!(tabbed.findings[0].key.as_deref(), Some("name"));
    let comma = scan_content(content, "rows.csv".to_string(), &Options::default());
    assert_eq!(comma.findings[0].key.as_deref(), Some("id\tname\tcity"));
}
