use unicode_le::detect::locate::{escape_spans, join, key_at, key_spans, lines, KeySpan};

fn spans() -> Vec<KeySpan> {
    vec![
        KeySpan { start: 5, end: 10, path: "a".to_string() },
        KeySpan { start: 20, end: 30, path: "b.c".to_string() },
    ]
}

#[test]
fn an_offset_inside_a_span_finds_its_key() {
    assert_eq!(key_at(&spans(), 5), Some("a"));
    assert_eq!(key_at(&spans(), 9), Some("a"));
    assert_eq!(key_at(&spans(), 25), Some("b.c"));
}

#[test]
fn an_offset_outside_every_span_finds_nothing() {
    assert_eq!(key_at(&spans(), 0), None);
    assert_eq!(key_at(&spans(), 10), None);
    assert_eq!(key_at(&spans(), 15), None);
    assert_eq!(key_at(&spans(), 30), None);
    assert_eq!(key_at(&[], 0), None);
}

#[test]
fn a_document_of_an_unreadable_format_has_no_spans() {
    assert!(key_spans("id = 1\n", "text").is_empty());
    assert!(key_spans("id = 1\n", "nonsense").is_empty());
    assert!(escape_spans(r#"{"a":"x\ny"}"#, "text").is_empty());
}

#[test]
fn every_line_carries_the_offset_it_starts_at() {
    let found = lines("one\ntwo\nthree");
    let found: Vec<(usize, &str)> = found.iter().map(|(o, l)| (*o, l.as_str())).collect();
    assert_eq!(found, [(0, "one"), (4, "two"), (8, "three")]);
}

#[test]
fn a_carriage_return_is_not_part_of_a_line() {
    let found = lines("one\r\ntwo\r\n");
    let found: Vec<(usize, &str)> = found.iter().map(|(o, l)| (*o, l.as_str())).collect();
    assert_eq!(found, [(0, "one"), (5, "two")]);
}

#[test]
fn a_trailing_newline_does_not_add_an_empty_line() {
    assert_eq!(lines("one\n").len(), 1);
    assert_eq!(lines("").len(), 0);
}

#[test]
fn a_path_skips_the_segments_a_root_leaves_empty() {
    assert_eq!(join(&["a".to_string(), "b".to_string()]), "a.b");
    assert_eq!(join(&[String::new(), "b".to_string()]), "b");
    assert_eq!(join(&[]), "");
}

#[test]
fn the_dispatch_reads_each_format_by_its_own_reader() {
    assert_eq!(key_spans("a = 1\n", "toml")[0].path, "a");
    assert_eq!(key_spans("[s]\na = 1\n", "ini")[0].path, "s.a");
    assert_eq!(key_spans("A=1\n", "env")[0].path, "A");
    assert_eq!(key_spans("a: 1\n", "yaml")[0].path, "a");
    assert_eq!(key_spans("h\nv\n", "csv")[0].path, "h");
    assert_eq!(key_spans(r#"{"a": 1}"#, "json")[0].path, "a");
}
