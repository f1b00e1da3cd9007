use serde_json::Value;
use unicode_le::escape::{json, text};

fn object(entries: Vec<(&str, Value)>) -> Value {
    let mut map = serde_json::Map::new();
    for (key, value) in entries {
        map.insert(key.to_string(), value);
    }
    Value::Object(map)
}

#[test]
fn ascii_is_returned_unchanged() {
    for value in ["", "src/a.ts", "{\"file\":\"src/a.ts\"}", "a\\b"] {
        assert_eq!(text(value), value);
        assert_eq!(json(value), value);
    }
}

#[test]
fn a_bidi_control_becomes_an_escape() {
    assert_eq!(text("invoice\u{202E}fdp.ts"), "invoice\\u202Efdp.ts");
}

#[test]
fn the_spelling_is_four_upper_case_hex_digits() {
    assert_eq!(text("\u{e9}"), "\\u00E9");
    assert_eq!(text("\u{200B}"), "\\u200B");
    assert_eq!(text("\u{FEFF}"), "\\uFEFF");
}

#[test]
fn an_astral_character_becomes_a_surrogate_pair() {
    assert_eq!(text("\u{1D41A}"), "\\uD835\\uDC1A");
    assert_eq!(text("\u{10FFFD}"), "\\uDBFF\\uDFFD");
}

#[test]
fn everything_it_returns_is_ascii() {
    for value in [
        "invoice\u{202E}fdp.ts",
        "\u{4e2d}\u{6587}/\u{1D41A}.json",
        "caf\u{e9}",
    ] {
        assert!(text(value).is_ascii(), "{value}");
        assert!(json(value).is_ascii(), "{value}");
    }
}

#[test]
fn an_escaped_document_parses_back_to_the_original_string() {
    for path in [
        "invoice\u{202E}fdp.ts",
        "src/\u{4e2d}\u{6587}/a.ts",
        "\u{1D41A}\u{10FFFD}.md",
        "caf\u{e9} name.ts",
        "with\"quote\\and\u{202E}.ts",
    ] {
        let document = serde_json::to_string(&object(vec![("file", Value::from(path))]))
            .expect("serializes");
        let escaped = json(&document);
        assert!(escaped.is_ascii(), "{escaped}");
        let parsed: Value =
            serde_json::from_str(&escaped).expect("the escaped document is still JSON");
        assert_eq!(parsed["file"], path, "{escaped}");
    }
}

#[test]
fn the_structure_of_a_document_survives_the_rewrite() {
    let file = object(vec![
        ("file", Value::from("a\u{202E}.ts")),
        ("findings", Value::Array(Vec::new())),
        ("n", Value::from(1)),
        ("ok", Value::from(true)),
    ]);
    let value = object(vec![("files", Value::Array(vec![file]))]);
    let escaped = json(&serde_json::to_string(&value).expect("serializes"));
    let parsed: Value = serde_json::from_str(&escaped).expect("still JSON");
    assert_eq!(parsed, value);
}

#[test]
fn escaping_twice_changes_nothing_the_second_time() {
    for value in ["invoice\u{202E}fdp.ts", "caf\u{e9}", "plain"] {
        let once = text(value);
        assert_eq!(text(&once), once);
    }
}
