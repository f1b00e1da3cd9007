use unicode_le::detect::{Kind, Options, Reason};
use unicode_le::scan::{exit_code, report, scan_bytes, unreadable, FailOn, FileReport};

const RLO: char = '\u{202E}';

fn scanned(name: &str, bytes: &[u8]) -> FileReport {
    scan_bytes(bytes, name.to_string(), &Options::default())
}

#[test]
fn a_byte_order_mark_is_the_encoding_and_does_not_move_the_offsets() {
    let body = format!("const label = \"{RLO}\";\n");
    let without = scanned("plain.ts", body.as_bytes());
    let with = scanned("marked.ts", format!("\u{feff}{body}").as_bytes());
    assert_eq!(without.summary.findings, 1);
    assert_eq!(with.summary.findings, 1, "{:?}", with.findings);
    assert_eq!(with.findings[0].offset, without.findings[0].offset + 3);
}

#[test]
fn an_interior_byte_order_mark_is_a_finding() {
    let file = scanned("a.ts", "const id = \"a\u{feff}b\";\n".as_bytes());
    assert_eq!(exit_code(&report(vec![file]), FailOn::Any, false), 1);
    let file = scanned("a.ts", "const id = \"a\u{feff}b\";\n".as_bytes());
    assert_eq!(file.findings[0].kind, Kind::Invisible);
    assert_eq!(file.findings[0].codepoints[0], "U+FEFF");
}

#[test]
fn an_undecodable_file_is_refused_by_name_rather_than_dropped() {
    for (case, bytes, reason, named) in [
        (
            "latin1",
            vec![b'c', b'a', b'f', 0xE9, b'\n'],
            Reason::BinaryOrUndecodable,
            "byte 3",
        ),
        (
            "utf16le",
            vec![0xFF, 0xFE, b'a', 0x00, b'b', 0x00],
            Reason::EncodingUnknown,
            "UTF-16LE",
        ),
        (
            "utf16be",
            vec![0xFE, 0xFF, 0x00, b'a', 0x00, b'b'],
            Reason::EncodingUnknown,
            "UTF-16BE",
        ),
        (
            "utf32le",
            vec![0xFF, 0xFE, 0x00, 0x00, b'a', 0x00, 0x00, 0x00],
            Reason::EncodingUnknown,
            "UTF-32LE",
        ),
        (
            "png-header",
            vec![0x89, b'P', b'N', b'G', 0x0D, 0x0A, 0x1A, 0x0A],
            Reason::BinaryOrUndecodable,
            "not valid UTF-8 at byte 0",
        ),
        (
            "nul-blob",
            vec![b'G', b'I', b'F', b'8', 0x00, 0x3B],
            Reason::BinaryOrUndecodable,
            "NUL",
        ),
    ] {
        let suspect = scanned("suspect.dat", &bytes);
        assert_eq!(suspect.refusals[0].reason, reason, "{case}");
        assert!(
            suspect.refusals[0].detail.contains(named),
            "{case}: {}",
            suspect.refusals[0].detail
        );
        let run = report(vec![scanned("ok.ts", b"const total = 1;\n"), suspect]);
        assert_eq!(run.summary.unexamined, 1, "{case}");
        assert_eq!(exit_code(&run, FailOn::Any, false), 0, "{case}");
        assert_eq!(exit_code(&run, FailOn::Any, true), 2, "{case}");
    }
}

#[test]
fn a_file_that_was_never_decoded_carries_no_findings() {
    let mut bytes = vec![0xFF, 0xFE];
    for unit in format!("x{RLO}y").encode_utf16() {
        bytes.extend_from_slice(&unit.to_le_bytes());
    }
    let file = scanned("catalogue.txt", &bytes);
    assert!(file.findings.is_empty());
    assert_eq!(file.refusals[0].reason, Reason::EncodingUnknown);
    assert_eq!(report(vec![file]).summary.findings, 0);
}

#[test]
fn an_empty_file_is_reported_as_a_file() {
    let run = report(vec![scanned("empty.ts", b"")]);
    assert_eq!(exit_code(&run, FailOn::Any, false), 0);
    assert_eq!(run.summary.files, 1);
    assert!(run.files[0].refusals.is_empty());
}

#[test]
fn a_nul_byte_mid_file_refuses_rather_than_panics() {
    let mut bytes = format!("const label = \"{RLO}\";\n").into_bytes();
    bytes.push(0);
    bytes.extend_from_slice(b"more text\n");
    let file = scanned("mixed.ts", &bytes);
    assert_eq!(file.refusals[0].reason, Reason::BinaryOrUndecodable);
    assert!(file.findings.is_empty());
}

#[test]
fn one_very_long_line_with_a_finding_every_few_characters_completes() {
    let mut body = String::new();
    for index in 0..2_000 {
        body.push_str("é");
        if index % 5 == 0 {
            body.push(RLO);
        }
    }
    let file = scanned("bundle.js", body.as_bytes());
    assert_eq!(file.summary.bidi, 400);
    assert!(file.findings.iter().all(|finding| finding.position.line == 1));
    assert_eq!(file.findings[1].position.column, 8);
}

#[test]
fn hazards_a_permission_denied_file_is_refused_by_name() {
    let denied = unreadable("denied.ts".to_string(), "Permission denied (os error 13)");
    assert_eq!(denied.refusals[0].reason, Reason::BinaryOrUndecodable);
    assert!(denied.refusals[0].detail.contains("could not be read"));
    let run = report(vec![denied, scanned("ok.ts", b"const total = 1;\n")]);
    assert_eq!(run.summary.unexamined, 1);
}
