use unicode_le::detect::codepoint::render;
use unicode_le::detect::{examine, kinds, parse_kind, Examination, Finding, Kind, Options, Reason};

fn examine_plain(content: &str, options: &Options) -> Examination {
    examine(content, "text", options)
}

fn kinds_of(content: &str) -> Vec<Kind> {
    examine_plain(content, &Options::default())
        .findings
        .into_iter()
        .map(|finding| finding.kind)
        .collect()
}

fn only(kinds: Vec<Kind>) -> Options {
    Options {
        kinds,
        ..Options::default()
    }
}

#[test]
fn a_clean_document_yields_nothing() {
    let clean = examine_plain("const total = 1 + 2;\n", &Options::default());
    assert!(clean.findings.is_empty());
    assert!(clean.refusals.is_empty());
}

#[test]
fn every_kind_is_reachable_from_one_document() {
    let content = [
        "let a = \"\u{202E}\";\n",
        "let b = \"x\u{200B}y\";\n",
        "let p\u{430}ypal = 1;\n",
        "let c = \"cafe\u{301}\";\n",
        "let d = \"x\u{00A0}y\";\n",
        "let e = \"\u{E000}\";\n",
    ]
    .concat();
    let mut found = kinds_of(&content);
    found.sort_unstable();
    found.dedup();
    let mut every = kinds();
    every.sort_unstable();
    assert_eq!(found, every);
}

#[test]
fn findings_come_back_in_document_order() {
    let content = "a\u{00A0}b\u{202E}c\u{200B}d";
    let findings = examine_plain(content, &Options::default()).findings;
    assert!(findings.windows(2).all(|pair| pair[0].offset <= pair[1].offset));
    assert_eq!(
        findings.iter().map(|f| f.kind).collect::<Vec<_>>(),
        [Kind::UnusualWhitespace, Kind::BidiControl, Kind::Invisible]
    );
}

#[test]
fn the_same_document_scans_identically_twice() {
    let content = "p\u{430}ypal \u{202E} cafe\u{301}";
    let first = examine_plain(content, &Options::default()).findings;
    let second = examine_plain(content, &Options::default()).findings;
    assert_eq!(format!("{first:?}"), format!("{second:?}"));
}

#[test]
fn a_kind_filter_narrows_the_report() {
    let content = "let a = \"\u{202E}x\u{00A0}\";\n";
    assert_eq!(kinds_of(content).len(), 2);
    let only_bidi = examine_plain(content, &only(vec![Kind::BidiControl]));
    assert_eq!(only_bidi.findings.len(), 1);
    assert_eq!(only_bidi.findings[0].kind, Kind::BidiControl);
}

#[test]
fn a_filter_that_excludes_the_script_checks_excludes_their_refusal() {
    let content = "ключ: значение\nдругой: текст";
    assert_eq!(examine_plain(content, &Options::default()).refusals.len(), 1);
    let only_bidi = examine_plain(content, &only(vec![Kind::BidiControl]));
    assert!(only_bidi.refusals.is_empty());
}

#[test]
fn a_refused_file_is_still_scanned_for_the_other_kinds() {
    let content = "ключ: \u{202E}значение\nдругой: текст";
    let examination = examine_plain(content, &Options::default());
    assert_eq!(examination.refusals.len(), 1);
    assert!(examination.refusals[0].is_partial());
    assert_eq!(
        examination.findings.iter().map(|f| f.kind).collect::<Vec<_>>(),
        [Kind::BidiControl]
    );
}

#[test]
fn the_position_and_the_offset_are_both_carried() {
    let examination = examine_plain("let a = 1;\nlet b = \"\u{202E}\";\n", &Options::default());
    let finding = &examination.findings[0];
    assert_eq!(finding.position.line, 2);
    assert_eq!(finding.position.column, 10);
    assert_eq!(finding.offset, 20);
}

#[test]
fn every_kind_is_spelled_the_same_everywhere() {
    for kind in kinds() {
        assert_eq!(parse_kind(kind.name()).expect(kind.name()), kind);
        assert_eq!(parse_kind(kind.short()).expect(kind.short()), kind);
    }
    assert_eq!(Kind::BidiControl.name(), "bidi-control");
    assert_eq!(Kind::UnassignedOrPrivateUse.name(), "unassigned-or-private-use");
    assert_eq!(Kind::UnusualWhitespace.short(), "whitespace");
}

#[test]
fn an_unknown_kind_is_refused_by_name() {
    let error = parse_kind("homoglyph").expect_err("a refusal");
    assert!(error.contains("homoglyph"), "{error}");
    assert!(error.contains("confusable"), "{error}");
}

const PLANTED: &str = "\u{202A}\u{202B}\u{202C}\u{202D}\u{202E}\
    \u{2066}\u{2067}\u{2068}\u{2069}\u{061C}\
    a\u{200B}b\u{200C}c\u{200D}d\u{2060}e\u{00AD}f\u{FEFF}g\u{180E}h\
    p\u{430}ypal l\u{3bf}gin \u{FF26}\u{FF29} \u{1d41a}dmin\
    cafe\u{301} x\u{00A0}y z\u{3000}w \u{E000}\u{0378}";

fn rendered(findings: &[Finding]) -> String {
    format!("{findings:?}")
}

#[test]
fn no_report_carries_a_character_it_found() {
    let examination = examine_plain(PLANTED, &Options::default());
    assert!(!examination.findings.is_empty());
    let text = rendered(&examination.findings);
    for character in PLANTED.chars().filter(|c| !c.is_ascii()) {
        assert!(!text.contains(character), "{} reached the report", render(character));
    }
}

#[test]
fn a_report_is_ascii_and_nothing_else() {
    let examination = examine_plain(PLANTED, &Options::default());
    for finding in &examination.findings {
        assert!(finding.detail.is_ascii(), "{}", finding.detail);
        for field in finding.codepoints.iter().chain(&finding.scripts).chain(&finding.resembles) {
            assert!(field.is_ascii(), "{field}");
        }
        assert!(finding.kind.name().is_ascii());
    }
}

#[test]
fn a_refusal_is_ascii_and_nothing_else() {
    let examination = examine_plain("你好世界你好世界你好世界", &Options::default());
    assert_eq!(examination.refusals.len(), 1);
    assert_eq!(examination.refusals[0].reason, Reason::IntentionalScriptContext);
    assert!(examination.refusals[0].detail.is_ascii());
}

#[test]
fn a_finding_carries_the_key_path_its_format_supplies() {
    let content = "{\"greeting\": {\"text\": \"hi\u{202E}\"}}";
    let keyed = examine(content, "json", &Options::default());
    assert_eq!(keyed.findings.len(), 1);
    assert_eq!(keyed.findings[0].key.as_deref(), Some("greeting.text"));
    let plain = examine(content, "text", &Options::default());
    assert_eq!(plain.findings.len(), 1);
    assert_eq!(plain.findings[0].key, None);
}

#[test]
fn a_leading_mark_is_not_a_finding_and_counts_in_the_offsets() {
    let examination = examine_plain("\u{FEFF}let a = \"\u{202E}\";\n", &Options::default());
    assert_eq!(
        examination.findings.iter().map(|f| f.kind).collect::<Vec<_>>(),
        [Kind::BidiControl]
    );
    assert_eq!(examination.findings[0].offset, 12);
}

#[test]
fn a_mark_between_letters_is_an_invisible() {
    let found = kinds_of("a\u{FEFF}b");
    assert_eq!(found, [Kind::Invisible]);
}

#[test]
fn a_filtered_examination_is_the_unfiltered_one_narrowed() {
    let content = "let p\u{430}ypal = \"\u{202E}x\u{00A0}y\u{200B}\";\ncafe\u{301}\n";
    let all = examine_plain(content, &Options::default()).findings;
    for wanted in [
        vec![Kind::BidiControl],
        vec![Kind::Confusable, Kind::NonNfc],
        vec![Kind::MixedScript, Kind::UnusualWhitespace, Kind::Invisible],
    ] {
        let narrowed = examine_plain(content, &only(wanted.clone())).findings;
        let expected: Vec<&Finding> = all.iter().filter(|f| wanted.contains(&f.kind)).collect();
        assert_eq!(format!("{narrowed:?}"), format!("{expected:?}"));
    }
}

#[test]
fn the_format_decides_the_key_and_nothing_else() {
    let content = "service:\n  label: \"p\u{430}ypal \u{202E}\"\n";
    let as_yaml = examine(content, "yaml", &Options::default()).findings;
    let as_text = examine(content, "text", &Options::default()).findings;
    assert_eq!(as_yaml.len(), as_text.len());
    assert!(!as_yaml.is_empty());
    for (keyed, plain) in as_yaml.iter().zip(&as_text) {
        assert_eq!(keyed.key.as_deref(), Some("service.label"));
        assert_eq!(plain.key, None);
        assert_eq!(keyed.kind, plain.kind);
        assert_eq!(keyed.offset, plain.offset);
        assert_eq!(keyed.position, plain.position);
        assert_eq!(keyed.codepoints, plain.codepoints);
        assert_eq!(keyed.detail, plain.detail);
    }
}
