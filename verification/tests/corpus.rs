use unicode_le::detect::encoding::{decode, Decoded};
use unicode_le::detect::format::{fallback_format, resolve_format, supported_formats};
use unicode_le::detect::scripts::parse_script;
use unicode_le::detect::{examine, kinds, Finding, Kind, Options, Reason, Severity};

/// One document per reader and one per kind, written the way the files
/// this tool is pointed at are written.
const TEXT_DOCUMENTS: [(&str, &str); 16] = [
    (
        "messages.json",
        "{\n  \"app\": {\n    \"banner\": {\n      \"title\": \"Welcome\u{200B}\",\n      \"note\": \"Hello\\nWorld\"\n    }\n  }\n}\n",
    ),
    ("config.yaml", "server:\n  name: \"ex\u{202E}ample\"\n  port: 8080\n"),
    ("config.toml", "[database]\nuser = \"ad\u{200D}min\"\n"),
    ("settings.ini", "[paths]\nroot = C:\\data\u{00A0}dir\n"),
    ("secrets.env", "API_TOKEN=abc\u{2060}def\n"),
    ("rows.csv", "name,label\nfirst,te\u{202E}st\n"),
    (
        "trojan-source.c",
        "int main() {\n    int isAdmin = 0;\n    /*\u{202E} } \u{2066}if (isAdmin)\u{2069} \u{2066} begin admins only */\n    return 0;\n}\n",
    ),
    ("invisible.ts", "const total\u{200B} = 1;\n"),
    ("homoglyph.js", "const p\u{430}ypal = require('paypal');\n"),
    ("fullwidth.ts", "const \u{FF26}\u{FF29}\u{FF2C}\u{FF25} = 1;\n"),
    (
        "mixed-script.py",
        "def check(user):\n    return user.l\u{3bf}gin_allowed and user.active\n",
    ),
    ("nfd.txt", "cafe\u{301}\ncafé\n"),
    ("whitespace.md", "a\u{00A0}b\u{3000}c\n"),
    ("private-use.txt", "x\u{E000}y\u{0378}z\n"),
    ("bom.ts", "\u{FEFF}const id = \"a\u{FEFF}b\";\n"),
    ("clean.ts", "const label = \"café naïve\";\n"),
];

/// The translations, which must produce no confusable and no
/// mixed-script finding whatever else they produce.
const TRANSLATIONS: [(&str, &str, &[&str]); 3] = [
    ("zh-cn.json", "{\"greeting\": \"你好世界\", \"farewell\": \"再见朋友\"}\n", &["Han"]),
    ("ru.json", "{\"greeting\": \"Привет мир\", \"farewell\": \"До свидания\"}\n", &["Cyrillic"]),
    (
        "ja.json",
        "{\"greeting\": \"こんにちは世界\", \"title\": \"日本語テキストです\"}\n",
        &["Han", "Hiragana", "Katakana"],
    ),
];

fn format_of(file: &str) -> &'static str {
    resolve_format(None, Some(file))
}

fn declared(scripts: &[&str]) -> Options {
    Options {
        kinds: Vec::new(),
        expected_scripts: scripts
            .iter()
            .map(|tag| parse_script(tag).expect("a script"))
            .collect(),
    }
}

fn findings_from_every_fixture() -> Vec<Finding> {
    TEXT_DOCUMENTS
        .iter()
        .flat_map(|(name, content)| {
            examine(content, format_of(name), &Options::default()).findings
        })
        .collect()
}

/// The documents that are not text, held as bytes.
fn byte_documents() -> Vec<(&'static str, Vec<u8>)> {
    let mut utf16 = vec![0xFF, 0xFE];
    for unit in "plain text".encode_utf16() {
        utf16.extend_from_slice(&unit.to_le_bytes());
    }
    vec![
        ("utf16le.txt", utf16),
        ("binary.dat", vec![0x7F, b'E', b'L', b'F', 0x02, 0x00, 0x00]),
        ("latin1.txt", b"caf\xE9 na\xEFve\n".to_vec()),
    ]
}

/// Every encoding case: a name, the byte document, and the reason it is refused.
const ENCODING_CASES: [(&str, &str, Reason); 3] = [
    ("a utf-16 byte-order mark", "utf16le.txt", Reason::EncodingUnknown),
    ("a binary header", "binary.dat", Reason::BinaryOrUndecodable),
    ("latin-1 bytes", "latin1.txt", Reason::BinaryOrUndecodable),
];

#[test]
fn every_encoding_case_reproduces() {
    let documents = byte_documents();
    for (case, file, reason) in ENCODING_CASES {
        let bytes = &documents
            .iter()
            .find(|(name, _)| *name == file)
            .expect("an embedded byte document")
            .1;
        match decode(bytes) {
            Decoded::Refused(refusal) => assert_eq!(refusal.reason, reason, "{case}"),
            Decoded::Text(_) => panic!("{case} decoded instead of refusing"),
        }
    }
}

#[test]
fn no_translation_produces_a_confusable_or_mixed_script_finding() {
    for (name, content, _) in TRANSLATIONS {
        let findings = examine(content, format_of(name), &Options::default()).findings;
        assert!(
            findings
                .iter()
                .all(|f| !matches!(f.kind, Kind::Confusable | Kind::MixedScript)),
            "{name}"
        );
    }
}

#[test]
fn a_declared_translation_is_judged_and_is_still_clean() {
    for (name, content, scripts) in TRANSLATIONS {
        let examination = examine(content, format_of(name), &declared(scripts));
        assert!(examination.refusals.is_empty(), "{name} was still refused");
        assert!(examination.findings.is_empty(), "{name}: {:?}", examination.findings);
    }
}

#[test]
fn coverage_matrix_every_kind_is_reachable_from_a_fixture() {
    let findings = findings_from_every_fixture();
    for kind in kinds() {
        assert!(
            findings.iter().any(|finding| finding.kind == kind),
            "{} is offered as a filter and no fixture produces it",
            kind.name()
        );
    }
}

#[test]
fn coverage_matrix_every_severity_is_reachable_from_a_fixture() {
    let findings = findings_from_every_fixture();
    for severity in [Severity::Low, Severity::Medium, Severity::High] {
        assert!(
            findings.iter().any(|finding| finding.severity == severity),
            "no fixture produces a {severity:?} finding"
        );
    }
}

#[test]
fn coverage_matrix_every_refusal_reason_is_reachable_from_a_fixture() {
    let mut reached: Vec<Reason> = TRANSLATIONS
        .iter()
        .flat_map(|(name, content, _)| {
            examine(content, format_of(name), &Options::default()).refusals
        })
        .map(|refusal| refusal.reason)
        .collect();
    for bytes in [&[0xFF, 0xFE, b'a', 0x00][..], &[b'a', 0x00][..]] {
        if let Decoded::Refused(refusal) = decode(bytes) {
            reached.push(refusal.reason);
        }
    }
    for reason in [
        Reason::BinaryOrUndecodable,
        Reason::EncodingUnknown,
        Reason::IntentionalScriptContext,
    ] {
        assert!(reached.contains(&reason), "no fixture produces {reason:?}");
    }
}

#[test]
fn coverage_matrix_every_format_reader_is_reachable_from_a_fixture() {
    let mut keyed: Vec<&str> = Vec::new();
    let mut plain = 0usize;
    for (name, content) in TEXT_DOCUMENTS {
        let format = format_of(name);
        let findings = examine(content, format, &Options::default()).findings;
        if format == fallback_format() {
            plain += findings.iter().filter(|f| f.key.is_some()).count();
            continue;
        }
        if findings.iter().any(|finding| finding.key.is_some()) {
            keyed.push(format);
        }
    }
    assert_eq!(plain, 0, "the plain-text reader invented a key path");
    for format in supported_formats() {
        if format == fallback_format() {
            continue;
        }
        assert!(keyed.contains(&format), "{format} names nothing from its fixture");
    }
}

#[test]
fn the_readers_name_where_each_finding_sits() {
    let expected = [
        ("messages.json", "app.banner.title"),
        ("config.yaml", "server.name"),
        ("config.toml", "database.user"),
        ("settings.ini", "paths.root"),
        ("secrets.env", "API_TOKEN"),
        ("rows.csv", "label"),
    ];
    for (name, key) in expected {
        let content = TEXT_DOCUMENTS
            .iter()
            .find(|(file, _)| *file == name)
            .map(|(_, content)| *content)
            .expect("an embedded document");
        let findings = examine(content, format_of(name), &Options::default()).findings;
        assert_eq!(findings.len(), 1, "{name}: {findings:?}");
        assert_eq!(findings[0].key.as_deref(), Some(key), "{name}");
    }
}

#[test]
fn the_clean_documents_are_clean() {
    let examination = examine(TEXT_DOCUMENTS[15].1, "text", &Options::default());
    assert!(examination.findings.is_empty());
    assert!(examination.refusals.is_empty());
    let bom = examine(TEXT_DOCUMENTS[14].1, "text", &Options::default());
    assert_eq!(bom.findings.len(), 1, "the leading mark is the encoding");
    assert_eq!(bom.findings[0].kind, Kind::Invisible);
}

/// Every case: a name, the document it reads, the kinds it must produce in
/// order, and the refusals it must carry.
const DOCUMENT_CASES: [(&str, &str, &[Kind], &[Reason]); 19] = [
    ("a key path in nested json", "messages.json", &[Kind::Invisible], &[]),
    ("a key path in yaml", "config.yaml", &[Kind::BidiControl], &[]),
    ("a key path in toml", "config.toml", &[Kind::Invisible], &[]),
    ("a key path in ini", "settings.ini", &[Kind::UnusualWhitespace], &[]),
    ("a key path in env", "secrets.env", &[Kind::Invisible], &[]),
    ("a column in csv", "rows.csv", &[Kind::BidiControl], &[]),
    (
        "the trojan source example",
        "trojan-source.c",
        &[Kind::BidiControl, Kind::BidiControl, Kind::BidiControl, Kind::BidiControl],
        &[],
    ),
    ("a zero width space", "invisible.ts", &[Kind::Invisible], &[]),
    ("a cyrillic letter in a latin word", "homoglyph.js", &[Kind::MixedScript, Kind::Confusable], &[]),
    (
        "full-width letters",
        "fullwidth.ts",
        &[Kind::Confusable, Kind::Confusable, Kind::Confusable, Kind::Confusable],
        &[],
    ),
    ("a greek letter in a latin word", "mixed-script.py", &[Kind::MixedScript, Kind::Confusable], &[]),
    ("a decomposed line", "nfd.txt", &[Kind::NonNfc], &[]),
    (
        "spaces that are not the space",
        "whitespace.md",
        &[Kind::UnusualWhitespace, Kind::UnusualWhitespace],
        &[],
    ),
    (
        "private use and unassigned",
        "private-use.txt",
        &[Kind::UnassignedOrPrivateUse, Kind::UnassignedOrPrivateUse],
        &[],
    ),
    ("a leading and an interior mark", "bom.ts", &[Kind::Invisible], &[]),
    ("accented latin is clean", "clean.ts", &[], &[]),
    ("a chinese translation", "zh-cn.json", &[], &[Reason::IntentionalScriptContext]),
    ("a russian translation", "ru.json", &[], &[Reason::IntentionalScriptContext]),
    ("a japanese translation", "ja.json", &[], &[Reason::IntentionalScriptContext]),
];

fn embedded(name: &str) -> Option<&'static str> {
    TEXT_DOCUMENTS
        .iter()
        .find(|(file, _)| *file == name)
        .map(|(_, content)| *content)
        .or_else(|| {
            TRANSLATIONS
                .iter()
                .find(|(file, _, _)| *file == name)
                .map(|(_, content, _)| *content)
        })
}

#[test]
fn every_document_case_reproduces() {
    for (case, file, kinds, reasons) in DOCUMENT_CASES {
        let content = embedded(file).expect("an embedded document");
        let examination = examine(content, format_of(file), &Options::default());
        assert_eq!(
            examination.findings.iter().map(|f| f.kind).collect::<Vec<_>>(),
            kinds,
            "{case}"
        );
        assert_eq!(
            examination.refusals.iter().map(|r| r.reason).collect::<Vec<_>>(),
            reasons,
            "{case}"
        );
    }
}

#[test]
fn the_corpus_and_the_embedded_documents_match() {
    for (name, _) in TEXT_DOCUMENTS {
        assert!(
            DOCUMENT_CASES.iter().any(|(_, file, _, _)| *file == name),
            "{name} is embedded but no case uses it"
        );
    }
    for (name, _, _) in TRANSLATIONS {
        assert!(
            DOCUMENT_CASES.iter().any(|(_, file, _, _)| *file == name),
            "{name} is embedded but no case uses it"
        );
    }
    for (case, file, _, _) in DOCUMENT_CASES {
        assert!(embedded(file).is_some(), "{case} names {file}, which is not embedded");
    }
    let documents = byte_documents();
    for (name, _) in &documents {
        assert!(
            ENCODING_CASES.iter().any(|(_, file, _)| file == name),
            "{name} is embedded but no case uses it"
        );
    }
    for (case, file, _) in ENCODING_CASES {
        assert!(
            documents.iter().any(|(name, _)| *name == file),
            "{case} names {file}, which is not embedded"
        );
    }
}
